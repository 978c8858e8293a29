//! The AArch64 loader for Apple Silicon: places a module, relocates it, and hands out addresses.
//!
//! The region is mapped once for JITed code; the host toggles between writing and executing it,
//! and invalidates the instruction cache before the code runs. Branch targets further than
//! ±128 MB away, as host externs mostly are, are reached through a veneer per target
//! (`movz/movk x16…; br x16`).

use std::collections::HashMap;

use vstd::prelude::*;
use vstd::string::*;

use crate::align::{lemma_rounded_up, round_up, rounded_up};
use crate::backend::{field_width, EncodedModule, Reloc, RelocKind};
use crate::bytes::{
    from_le32, le32, le64, lemma_cast_i64, lemma_from_le32, lemma_from_le64, lemma_le_len, or_word,
    overwrite, put_le32, put_le64, word_at,
};
use crate::load::{
    every_job_is_a_relocation, every_relocation_is_queued, field_at, field_inside,
    fields_lie_apart, first_job, is_patched, is_reloc, jobs, placing, resolution, spelled32,
    spelled64, wants, CodeSpace, LoadError, Placed,
};
use crate::names::NameMap;
use crate::native::{field_of, signed64, two64, FinalizeStep};

verus! {

/// Bytes of a page on Apple Silicon.
pub const PAGE: usize = 0x4000;

/// Bytes of a veneer.
pub const VENEER_LEN: usize = 20;

/// What mapping memory gives when it fails.
pub const MAP_FAILED: u64 = 0xffff_ffff_ffff_ffff;

/// The `i`th group of sixteen bits of an address.
pub open spec fn group(addr: u64, i: int) -> int {
    if i == 0 {
        addr as int % 0x1_0000
    } else if i == 1 {
        addr as int / 0x1_0000 % 0x1_0000
    } else if i == 2 {
        addr as int / 0x1_0000_0000 % 0x1_0000
    } else {
        addr as int / 0x1_0000_0000_0000
    }
}

/// `movz`/`movk x16` for the four groups of the address, then `br x16`.
pub open spec fn veneer_words(addr: u64) -> Seq<u32> {
    seq![
        (0xD280_0000 + group(addr, 0) * 32 + 16) as u32,
        (0xF280_0000 + 0x20_0000 + group(addr, 1) * 32 + 16) as u32,
        (0xF280_0000 + 0x40_0000 + group(addr, 2) * 32 + 16) as u32,
        (0xF280_0000 + 0x60_0000 + group(addr, 3) * 32 + 16) as u32,
        0xD61F_0200u32,
    ]
}

/// The bytes of a veneer.
pub open spec fn veneer(addr: u64) -> Seq<u8> {
    let w = veneer_words(addr);
    le32(w[0] as int) + le32(w[1] as int) + le32(w[2] as int) + le32(w[3] as int) + le32(
        w[4] as int,
    )
}

/// The sixteen-bit immediate of a `movz` or `movk`.
pub open spec fn imm16(w: u32) -> int {
    w as int / 32 % 0x1_0000
}

/// What the veneer puts into x16 before it branches there is the address.
pub proof fn veneer_loads_the_address(addr: u64)
    ensures
        ({
            let w = veneer_words(addr);
            imm16(w[0]) + imm16(w[1]) * 0x1_0000 + imm16(w[2]) * 0x1_0000_0000 + imm16(w[3])
                * 0x1_0000_0000_0000 == addr
        }),
{
    lemma_imm16(0x694, group(addr, 0));
    lemma_imm16(0x795, group(addr, 1));
    lemma_imm16(0x796, group(addr, 2));
    lemma_imm16(0x797, group(addr, 3));
    let a = addr as int / 0x1_0000;
    let b = addr as int / 0x1_0000_0000;
    let c = addr as int / 0x1_0000_0000_0000;
    assert(b == a / 0x1_0000);
    assert(c == b / 0x1_0000);
}

/// An immediate reads back from the instruction it was put into.
proof fn lemma_imm16(opcode: int, g: int)
    requires
        0 <= opcode < 0x800,
        0 <= g < 0x1_0000,
    ensures
        imm16((0x20_0000 * opcode + g * 32 + 16) as u32) == g,
{
    let x = 0x20_0000 * opcode + g * 32 + 16;
    assert(x / 32 == 0x1_0000 * opcode + g);
    vstd::arithmetic::div_mod::lemma_mod_multiples_vanish(opcode, g, 0x1_0000);
}

/// `movz/movk x16, …; br x16`: loads `addr` into x16 and branches there.
pub fn abs_veneer(addr: u64) -> (v: [u32; 5])
    ensures
        v@ == veneer_words(addr),
{
    let g0: u32 = (addr & 0xFFFF) as u32;
    let g1: u32 = ((addr >> 16) & 0xFFFF) as u32;
    let g2: u32 = ((addr >> 32) & 0xFFFF) as u32;
    let g3: u32 = ((addr >> 48) & 0xFFFF) as u32;
    proof {
        assert((addr & 0xFFFF) as u32 == addr % 0x1_0000 && ((addr >> 16) & 0xFFFF) as u32 == addr
            / 0x1_0000 % 0x1_0000 && ((addr >> 32) & 0xFFFF) as u32 == addr / 0x1_0000_0000
            % 0x1_0000 && ((addr >> 48) & 0xFFFF) as u32 == addr / 0x1_0000_0000_0000)
            by (bit_vector);
        lemma_or_group(g0);
        lemma_or_group(g1);
        lemma_or_group(g2);
        lemma_or_group(g3);
        assert(0xD61F_0000u32 | (16u32 << 5) == 0xD61F_0200u32) by (bit_vector);
    }
    let v: [u32; 5] = [
        0xD280_0000 | (g0 << 5) | 16,  // movz x16, #g0
        0xF280_0000 | (1 << 21) | (g1 << 5) | 16,  // movk x16, #g1, lsl #16
        0xF280_0000 | (2 << 21) | (g2 << 5) | 16,  // movk x16, #g2, lsl #32
        0xF280_0000 | (3 << 21) | (g3 << 5) | 16,  // movk x16, #g3, lsl #48
        0xD61F_0000 | (16 << 5),  // br x16
    ];
    assert(v@ =~= veneer_words(addr));
    v
}

proof fn lemma_or_group(g: u32)
    requires
        g < 0x1_0000,
    ensures
        0xD280_0000u32 | (g << 5) | 16 == 0xD280_0000 + g * 32 + 16,
        0xF280_0000u32 | (1u32 << 21) | (g << 5) | 16 == 0xF280_0000 + 0x20_0000 + g * 32 + 16,
        0xF280_0000u32 | (2u32 << 21) | (g << 5) | 16 == 0xF280_0000 + 0x40_0000 + g * 32 + 16,
        0xF280_0000u32 | (3u32 << 21) | (g << 5) | 16 == 0xF280_0000 + 0x60_0000 + g * 32 + 16,
{
    assert(g < 0x1_0000 ==> 0xD280_0000u32 | (g << 5) | 16 == 0xD280_0000 + g * 32 + 16
        && 0xF280_0000u32 | (1u32 << 21) | (g << 5) | 16 == 0xF280_0000 + 0x20_0000 + g * 32 + 16
        && 0xF280_0000u32 | (2u32 << 21) | (g << 5) | 16 == 0xF280_0000 + 0x40_0000 + g * 32 + 16
        && 0xF280_0000u32 | (3u32 << 21) | (g << 5) | 16 == 0xF280_0000 + 0x60_0000 + g * 32 + 16)
        by (bit_vector);
}

/// The immediate bits of a `b`/`bl` that goes `dist` bytes.
pub open spec fn branch_bits(dist: int) -> u32 {
    (dist / 4 % 0x400_0000) as u32
}

/// The immediate bits of an `adrp` that goes `pages` pages.
pub open spec fn adrp_bits(pages: int) -> u32 {
    let d = pages % 0x20_0000;
    (d % 4 * 0x2000_0000 + d / 4 * 32) as u32
}

/// The immediate bits of an `add` of the offset of `goal` in its page.
pub open spec fn add_bits(goal: u64) -> u32 {
    (goal as int % 0x1000 * 0x400) as u32
}

/// The page that an address lies in.
pub open spec fn page_of(addr: u64) -> int {
    addr as int / 0x1000
}

/// How many bytes a branch from `field` to `goal` goes.
pub open spec fn branch_dist(field: u64, goal: u64) -> int {
    signed64(goal - field)
}

/// How many pages an `adrp` at `field` goes to reach the page of `goal`.
pub open spec fn page_dist(field: u64, goal: u64) -> int {
    signed64(0x1000 * (page_of(goal) - page_of(field))) / 0x1000
}

/// A relocation whose target is known: where, what, and the address to reach.
pub struct Fix {
    pub field: u64,
    pub kind: RelocKind,
    pub goal: u64,
}

/// What patching works on: the image, the offset of the next veneer, and the veneers so far.
#[verifier::ext_equal]
pub struct Patching {
    pub img: Seq<u8>,
    pub off: int,
    pub veneers: Map<u64, u64>,
}

/// `img` with `bits` put into the instruction at `at`.
pub open spec fn ored(img: Seq<u8>, at: int, bits: u32) -> Seq<u8> {
    overwrite(img, at, le32((word_at(img, at) | bits) as int))
}

/// `st` with a veneer for `goal`, where there is none yet and it fits.
pub open spec fn with_veneer(base: u64, st: Patching, goal: u64) -> Option<Patching> {
    if st.veneers.dom().contains(goal) {
        Some(st)
    } else if st.off + VENEER_LEN > st.img.len() {
        None
    } else {
        Some(
            Patching {
                img: overwrite(st.img, st.off, veneer(goal)),
                off: st.off + VENEER_LEN,
                veneers: st.veneers.insert(goal, (base + st.off) as u64),
            },
        )
    }
}

/// What one relocation does to a region at `base`.
pub open spec fn patched(base: u64, st: Patching, f: Fix) -> Result<Patching, LoadError> {
    let at = f.field - base;
    match f.kind {
        RelocKind::Branch26 => {
            let dist = branch_dist(f.field, f.goal);
            if -0x800_0000 <= dist < 0x800_0000 {
                Ok(Patching { img: ored(st.img, at, branch_bits(dist)), ..st })
            } else {
                match with_veneer(base, st, f.goal) {
                    Some(v) => Ok(
                        Patching {
                            img: ored(
                                v.img,
                                at,
                                branch_bits(branch_dist(f.field, v.veneers[f.goal])),
                            ),
                            ..v
                        },
                    ),
                    None => Err(LoadError::VeneersExhausted),
                }
            }
        },
        RelocKind::AdrpPage21 => {
            let pages = page_dist(f.field, f.goal);
            if -0x10_0000 <= pages < 0x10_0000 {
                Ok(Patching { img: ored(st.img, at, adrp_bits(pages)), ..st })
            } else {
                Err(LoadError::AdrpRange)
            }
        },
        RelocKind::AddPageOff12 => Ok(
            Patching { img: ored(st.img, at, add_bits(f.goal)), ..st },
        ),
        RelocKind::Abs64 => Ok(Patching { img: overwrite(st.img, at, le64(f.goal as int)), ..st }),
        _ => Err(LoadError::ForeignKind { kind: f.kind }),
    }
}

/// The state after the first `n` fixes, with the error that stopped them. A fix that fails
/// changes nothing.
pub open spec fn patched_all(base: u64, st: Patching, fixes: Seq<Fix>, n: int) -> (
    Patching,
    Option<LoadError>,
)
    decreases n,
{
    if n <= 0 {
        (st, None)
    } else {
        let (s, err) = patched_all(base, st, fixes, n - 1);
        if err is Some {
            (s, err)
        } else {
            match patched(base, s, fixes[n - 1]) {
                Ok(t) => (t, None),
                Err(e) => (s, Some(e)),
            }
        }
    }
}

/// A job with its target found.
pub open spec fn fix_of(
    symbols: Map<Seq<char>, u64>,
    externs: Map<Seq<char>, u64>,
    job: (u64, Reloc),
) -> Result<Fix, LoadError> {
    match resolution(symbols, externs, job.1.target@) {
        None => Err(LoadError::Unresolved { target: job.1.target }),
        Some(target) => Ok(
            Fix {
                field: field_of(job) as u64,
                kind: job.1.kind,
                goal: ((target + job.1.addend) % two64()) as u64,
            },
        ),
    }
}

/// The first `n` jobs with their targets found, or the first that cannot be.
pub open spec fn fixes_of(
    symbols: Map<Seq<char>, u64>,
    externs: Map<Seq<char>, u64>,
    work: Seq<(u64, Reloc)>,
    n: int,
) -> Result<Seq<Fix>, LoadError>
    decreases n,
{
    if n <= 0 {
        Ok(Seq::empty())
    } else {
        match fixes_of(symbols, externs, work, n - 1) {
            Err(e) => Err(e),
            Ok(v) => match fix_of(symbols, externs, work[n - 1]) {
                Err(e) => Err(e),
                Ok(f) => Ok(v.push(f)),
            },
        }
    }
}

/// The fields of a fix lie in the part of the region that is taken.
pub open spec fn fix_inside(f: Fix, base: u64, used: int) -> bool {
    base <= f.field && f.field + field_width(f.kind) <= base + used
}

proof fn lemma_branch_bits(field: u64, goal: u64, dist: u64)
    requires
        dist == (goal - field) % two64(),
    ensures
        ((dist >> 2) as u32) & 0x03FF_FFFF == branch_bits(branch_dist(field, goal)),
        (-0x800_0000 <= branch_dist(field, goal) < 0x800_0000) == (dist < 0x800_0000 || dist
            >= 0xffff_ffff_f800_0000),
{
    assert(((dist >> 2) as u32) & 0x03FF_FFFF == dist / 4 % 0x400_0000) by (bit_vector);
    let rel = branch_dist(field, goal);
    if rel != dist {
        assert(rel == dist - two64());
        assert(rel / 4 == dist as int / 4 - 0x4000_0000_0000_0000);
        vstd::arithmetic::div_mod::lemma_mod_multiples_vanish(
            -0x10_0000_0000,
            dist as int / 4,
            0x400_0000,
        );
    }
}

proof fn lemma_adrp_bits(field: u64, goal: u64, from: u64, to: u64, dist: u64)
    requires
        from == 0x1000 * page_of(field),
        to == 0x1000 * page_of(goal),
        dist == (to - from) % two64(),
    ensures
        ({
            let d = ((dist >> 12) as u32) & 0x1F_FFFF;
            ((d & 3) << 29) | (((d >> 2) & 0x7_FFFF) << 5) == adrp_bits(page_dist(field, goal))
        }),
        (-0x10_0000 <= page_dist(field, goal) < 0x10_0000) == (dist < 0x1_0000_0000 || dist
            >= 0xffff_ffff_0000_0000),
{
    let d = ((dist >> 12) as u32) & 0x1F_FFFF;
    assert(((dist >> 12) as u32) & 0x1F_FFFF == dist / 0x1000 % 0x20_0000) by (bit_vector);
    assert(d < 0x20_0000 ==> ((d & 3) << 29) | (((d >> 2) & 0x7_FFFF) << 5) == d % 4 * 0x2000_0000
        + d / 4 * 32) by (bit_vector);
    let rel = signed64(0x1000 * (page_of(goal) - page_of(field)));
    if rel != dist {
        assert(rel == dist - two64());
        assert(rel / 0x1000 == dist as int / 0x1000 - 0x10_0000_0000_0000);
        vstd::arithmetic::div_mod::lemma_mod_multiples_vanish(
            -0x8000_0000,
            dist as int / 0x1000,
            0x20_0000,
        );
    }
}

pub struct MacJit {
    pub space: CodeSpace,
    pub finalized: bool,
    /// The host has the region writable.
    pub writable: bool,
    /// Text accumulated for the first lookup.
    pub pending_text: String,
}

/// Writes a veneer for `goal` at index `off`.
fn put_veneer(img: &mut Vec<u8>, off: usize, goal: u64)
    requires
        off + VENEER_LEN <= old(img).len(),
    ensures
        final(img)@ == overwrite(old(img)@, off as int, veneer(goal)),
{
    let words: [u32; 5] = abs_veneer(goal);
    proof {
        lemma_le_len(words@[0] as int);
        lemma_le_len(words@[1] as int);
        lemma_le_len(words@[2] as int);
        lemma_le_len(words@[3] as int);
        lemma_le_len(words@[4] as int);
    }
    put_le32(img, off, words[0]);
    put_le32(img, off + 4, words[1]);
    put_le32(img, off + 8, words[2]);
    put_le32(img, off + 12, words[3]);
    put_le32(img, off + 16, words[4]);
    assert(img@ =~= overwrite(old(img)@, off as int, veneer(goal)));
}

/// Makes sure that there is a veneer for `goal`, and gives its address.
fn veneer_for(
    base: u64,
    img: &mut Vec<u8>,
    off: &mut usize,
    veneers: &mut HashMap<u64, u64>,
    goal: u64,
) -> (r: Option<u64>)
    requires
        base + old(img).len() <= u64::MAX,
        *old(off) <= old(img).len(),
    ensures
        ({
            let st = Patching { img: old(img)@, off: *old(off) as int, veneers: old(veneers)@ };
            match with_veneer(base, st, goal) {
                Some(v) => r == Some(v.veneers[goal]) && v == (Patching {
                    img: final(img)@,
                    off: *final(off) as int,
                    veneers: final(veneers)@,
                }),
                None => r is None && final(img)@ == old(img)@ && *final(off) == *old(off)
                    && final(veneers)@ == old(veneers)@,
            }
        }),
        *final(off) <= final(img).len(),
        final(img).len() == old(img).len(),
{
    broadcast use vstd::std_specs::hash::group_hash_axioms;

    if let Some(v) = veneers.get(&goal) {
        return Some(*v);
    }
    if img.len() - *off < VENEER_LEN {
        return None;
    }
    let addr: u64 = base + *off as u64;
    put_veneer(img, *off, goal);
    *off = *off + VENEER_LEN;
    veneers.insert(goal, addr);
    Some(addr)
}

/// Applies one fix.
#[verifier::spinoff_prover]
#[verifier::rlimit(60)]
fn apply_fix(
    base: u64,
    img: &mut Vec<u8>,
    off: &mut usize,
    veneers: &mut HashMap<u64, u64>,
    f: &Fix,
) -> (r: Result<(), LoadError>)
    requires
        base + old(img).len() <= u64::MAX,
        *old(off) <= old(img).len(),
        fix_inside(*f, base, old(img)@.len() as int),
    ensures
        ({
            let st = Patching { img: old(img)@, off: *old(off) as int, veneers: old(veneers)@ };
            let now = Patching {
                img: final(img)@,
                off: *final(off) as int,
                veneers: final(veneers)@,
            };
            match patched(base, st, *f) {
                Ok(t) => r is Ok && now == t,
                Err(e) => r == Err::<(), LoadError>(e) && now == st,
            }
        }),
        *final(off) <= final(img).len(),
        final(img).len() == old(img).len(),
{
    let at: usize = (f.field - base) as usize;
    match f.kind {
        RelocKind::Branch26 => {
            let mut dist: u64 = f.goal.wrapping_sub(f.field);
            proof {
                lemma_branch_bits(f.field, f.goal, dist);
            }
            if !(dist < 0x800_0000 || dist >= 0xffff_ffff_f800_0000) {
                // Out of ±128 MB: go through a veneer.
                match veneer_for(base, img, off, veneers, f.goal) {
                    Some(v) => {
                        dist = v.wrapping_sub(f.field);
                        proof {
                            lemma_branch_bits(f.field, v, dist);
                        }
                    },
                    None => {
                        return Err(LoadError::VeneersExhausted);
                    },
                }
            }
            or_word(img, at, ((dist >> 2) as u32) & 0x03FF_FFFF);
            Ok(())
        },
        RelocKind::AdrpPage21 => {
            let to: u64 = f.goal & !0xFFFu64;
            let from: u64 = f.field & !0xFFFu64;
            let dist: u64 = to.wrapping_sub(from);
            proof {
                lemma_page(f.goal);
                lemma_page(f.field);
                lemma_adrp_bits(f.field, f.goal, from, to, dist);
            }
            if !(dist < 0x1_0000_0000 || dist >= 0xffff_ffff_0000_0000) {
                return Err(LoadError::AdrpRange);
            }
            let d: u32 = ((dist >> 12) as u32) & 0x1F_FFFF;
            let immlo: u32 = d & 0x3;
            let immhi: u32 = (d >> 2) & 0x7_FFFF;
            or_word(img, at, (immlo << 29) | (immhi << 5));
            Ok(())
        },
        RelocKind::AddPageOff12 => {
            let goal: u64 = f.goal;
            assert(((goal & 0xFFF) as u32) << 10 == goal % 0x1000 * 0x400) by (bit_vector);
            or_word(img, at, ((goal & 0xFFF) as u32) << 10);
            Ok(())
        },
        RelocKind::Abs64 => {
            put_le64(img, at, f.goal);
            Ok(())
        },
        RelocKind::BranchRel32 | RelocKind::RipRel32 => Err(
            LoadError::ForeignKind { kind: f.kind },
        ),
    }
}

proof fn lemma_page(addr: u64)
    ensures
        addr & !0xFFFu64 == 0x1000 * page_of(addr),
{
    assert(addr & !0xFFFu64 == 0x1000 * (addr / 0x1000)) by (bit_vector);
}

/// Once an error has stopped the fixes, nothing more happens.
proof fn lemma_patching_stopped(base: u64, st: Patching, fixes: Seq<Fix>, n: int, m: int)
    requires
        0 <= n <= m,
        patched_all(base, st, fixes, n).1 is Some,
    ensures
        patched_all(base, st, fixes, m) == patched_all(base, st, fixes, n),
    decreases m,
{
    if n < m {
        lemma_patching_stopped(base, st, fixes, n, m - 1);
    }
}

/// Where one target is missing, so is it for all.
proof fn lemma_fixes_stopped(
    symbols: Map<Seq<char>, u64>,
    externs: Map<Seq<char>, u64>,
    work: Seq<(u64, Reloc)>,
    n: int,
    m: int,
)
    requires
        0 <= n <= m,
        fixes_of(symbols, externs, work, n) is Err,
    ensures
        fixes_of(symbols, externs, work, m) == fixes_of(symbols, externs, work, n),
    decreases m,
{
    if n < m {
        lemma_fixes_stopped(symbols, externs, work, n, m - 1);
    }
}

/// Applies the fixes in turn, with veneers from index `used` on. Gives the index behind the last
/// veneer.
fn apply_all(base: u64, img: &mut Vec<u8>, used: usize, fixes: &Vec<Fix>) -> (r: Result<
    usize,
    LoadError,
>)
    requires
        base + old(img).len() <= u64::MAX,
        used <= old(img).len(),
        forall|k: int|
            0 <= k < fixes@.len() ==> fix_inside(#[trigger] fixes@[k], base, used as int),
    ensures
        ({
            let st = Patching { img: old(img)@, off: used as int, veneers: Map::empty() };
            let (end, err) = patched_all(base, st, fixes@, fixes@.len() as int);
            &&& final(img)@ == end.img
            &&& match err {
                None => r matches Ok(off) && off == end.off && used <= off <= final(img).len(),
                Some(e) => r == Err::<usize, LoadError>(e),
            }
        }),
        final(img).len() == old(img).len(),
{
    let mut off: usize = used;
    let mut veneers: HashMap<u64, u64> = HashMap::new();
    let ghost st = Patching { img: img@, off: used as int, veneers: Map::empty() };
    let ghost mut now = st;
    let mut i: usize = 0;
    while i < fixes.len()
        invariant
            i <= fixes@.len(),
            base + img.len() <= u64::MAX,
            img.len() == old(img).len(),
            used <= off <= img.len(),
            st.img == old(img)@,
            st == (Patching { img: old(img)@, off: used as int, veneers: Map::empty() }),
            forall|k: int|
                0 <= k < fixes@.len() ==> fix_inside(#[trigger] fixes@[k], base, used as int),
            now == (Patching { img: img@, off: off as int, veneers: veneers@ }),
            patched_all(base, st, fixes@, i as int) == (now, None::<LoadError>),
        decreases fixes@.len() - i,
    {
        let ghost before = now;
        let done = apply_fix(base, img, &mut off, &mut veneers, &fixes[i]);
        proof {
            now = Patching { img: img@, off: off as int, veneers: veneers@ };
            lemma_patched_off(base, before, fixes@[i as int]);
        }
        if let Err(e) = done {
            proof {
                lemma_patching_stopped(base, st, fixes@, i + 1, fixes@.len() as int);
            }
            return Err(e);
        }
        i += 1;
    }
    Ok(off)
}

proof fn lemma_patched_off(base: u64, st: Patching, f: Fix)
    ensures
        patched(base, st, f) matches Ok(t) ==> st.off <= t.off,
{
}

/// What finalizing does to a loader that is not finalized.
pub open spec fn finalizing(
    before: MacJit,
    after: MacJit,
    r: Result<FinalizeStep, LoadError>,
) -> bool {
    let c = before.space;
    let work = jobs(c.placed@);
    match fixes_of(c.symbols@, c.externs@, work, work.len() as int) {
        Err(e) => r == Err::<FinalizeStep, LoadError>(e) && after == before,
        Ok(fixes) => {
            let st = Patching { img: c.image@, off: c.used as int, veneers: Map::empty() };
            let (end, err) = patched_all(c.base, st, fixes, fixes.len() as int);
            &&& after.space.image@ == end.img
            &&& match err {
                Some(e) => r == Err::<FinalizeStep, LoadError>(e) && after == (MacJit {
                    space: (CodeSpace { image: after.space.image, ..c }),
                    ..before
                }),
                None => r == Ok::<FinalizeStep, LoadError>(FinalizeStep::Protect)
                    && after.space.used == end.off && after == (MacJit {
                    space: (CodeSpace { image: after.space.image, used: after.space.used, ..c }),
                    finalized: true,
                    writable: false,
                    ..before
                }),
            }
        },
    }
}

impl MacJit {
    pub open spec fn wf(&self) -> bool {
        self.space.wf()
    }

    /// Finds the targets of all relocations.
    fn resolve_all(&self) -> (r: Result<Vec<Fix>, LoadError>)
        requires
            self.wf(),
        ensures
            ({
                let work = jobs(self.space.placed@);
                match fixes_of(
                    self.space.symbols@,
                    self.space.externs@,
                    work,
                    work.len() as int,
                ) {
                    Ok(v) => r matches Ok(w) && w@ == v && forall|k: int|
                        0 <= k < v.len() ==> fix_inside(
                            #[trigger] v[k],
                            self.space.base,
                            self.space.used as int,
                        ),
                    Err(e) => r == Err::<Vec<Fix>, LoadError>(e),
                }
            }),
    {
        let queue: Vec<(u64, Reloc)> = self.space.queued();
        let ghost (syms, exts) = (self.space.symbols@, self.space.externs@);
        let mut fixes: Vec<Fix> = Vec::new();
        let mut i: usize = 0;
        while i < queue.len()
            invariant
                self.wf(),
                i <= queue@.len(),
                queue@ == jobs(self.space.placed@),
                syms == self.space.symbols@,
                exts == self.space.externs@,
                forall|k: int|
                    0 <= k < queue@.len() ==> field_inside(
                        #[trigger] queue@[k],
                        self.space.base,
                        self.space.used,
                    ),
                fixes_of(syms, exts, queue@, i as int) == Ok::<Seq<Fix>, LoadError>(fixes@),
                forall|k: int|
                    0 <= k < fixes@.len() ==> fix_inside(
                        #[trigger] fixes@[k],
                        self.space.base,
                        self.space.used as int,
                    ),
            decreases queue@.len() - i,
        {
            let (base, r) = (&queue[i].0, &queue[i].1);
            assert(queue@[i as int] == (*base, *r));
            match self.space.resolve(r.target.as_str()) {
                Some(target) => {
                    proof {
                        lemma_cast_i64(r.addend);
                        lemma_goal(target, r.addend);
                    }
                    fixes.push(
                        Fix {
                            field: *base + r.at as u64,
                            kind: r.kind,
                            goal: target.wrapping_add(r.addend as u64),
                        },
                    );
                },
                None => {
                    proof {
                        lemma_fixes_stopped(syms, exts, queue@, i + 1, queue@.len() as int);
                    }
                    return Err(LoadError::Unresolved { target: r.target.clone() });
                },
            }
            i += 1;
        }
        Ok(fixes)
    }

    /// Applies all relocations, with veneers for what is too far, and leaves the loader
    /// finalized: the host is to copy the image into the region, make it executable and
    /// invalidate the instruction cache. Does nothing once the loader is finalized.
    pub fn finalize(&mut self) -> (r: Result<FinalizeStep, LoadError>)
        requires
            old(self).wf(),
        ensures
            final(self).wf(),
            if old(self).finalized {
                r == Ok::<FinalizeStep, LoadError>(FinalizeStep::Done) && *final(self) == *old(self)
            } else {
                finalizing(*old(self), *final(self), r)
            },
    {
        if self.finalized {
            return Ok(FinalizeStep::Done);
        }
        let fixes: Vec<Fix> = match self.resolve_all() {
            Ok(v) => v,
            Err(e) => {
                return Err(e);
            },
        };
        let off: usize = match apply_all(
            self.space.base,
            &mut self.space.image,
            self.space.used,
            &fixes,
        ) {
            Ok(off) => off,
            Err(e) => {
                return Err(e);
            },
        };
        self.space.used = off;
        self.writable = false;
        self.finalized = true;
        Ok(FinalizeStep::Protect)
    }
}

/// The capacity of a region that holds `cap` bytes: whole pages, at least one.
pub open spec fn region_capacity(cap: int) -> int {
    rounded_up(
        if cap < PAGE {
            PAGE as int
        } else {
            cap
        },
        PAGE as int,
    )
}

/// Bytes to ask for to place a module: its code, a veneer for each extern, and slack.
pub open spec fn build_capacity(m: EncodedModule) -> int {
    m.code@.len() + m.externs@.len() * VENEER_LEN + PAGE
}

/// A region is a whole number of pages of 16 KiB, at least one, and no page more than it takes.
pub proof fn region_is_whole_pages(cap: int)
    requires
        0 <= cap,
    ensures
        region_capacity(cap) % 0x4000 == 0,
        region_capacity(cap) >= 0x4000,
        region_capacity(cap) >= cap,
        cap >= 0x4000 ==> region_capacity(cap) < cap + 0x4000,
        cap <= 0x4000 ==> region_capacity(cap) == 0x4000,
{
    lemma_rounded_up(
        if cap < PAGE {
            PAGE as int
        } else {
            cap
        },
        PAGE as int,
    );
}

/// What is asked for to place a module holds its code and twenty bytes for each extern, with one
/// page to spare.
pub proof fn build_asks_for_a_page_to_spare(m: EncodedModule)
    ensures
        build_capacity(m) == m.code@.len() + 20 * m.externs@.len() + 0x4000,
{
}

/// Mapping memory failed.
pub open spec fn unmapped(region: u64) -> bool {
    region == 0 || region == MAP_FAILED
}

impl MacJit {
    /// A loader over `cap` zero bytes at `region`, with these externs bound and nothing placed.
    pub open spec fn is_fresh(
        self,
        region: u64,
        cap: int,
        externs: Map<Seq<char>, u64>,
    ) -> bool {
        &&& self.space.base == region
        &&& self.space.image@ == Seq::new(cap as nat, |i: int| 0u8)
        &&& self.space.used == 0
        &&& self.space.symbols@ == Map::<Seq<char>, u64>::empty()
        &&& self.space.externs@ == externs
        &&& self.space.placed@ == Seq::<Placed>::empty()
        &&& !self.finalized
        &&& self.pending_text@ == Seq::<char>::empty()
    }

    /// The bytes to map for a loader with room for `cap` bytes.
    pub fn capacity(cap: usize) -> (n: usize)
        requires
            cap + PAGE <= usize::MAX,
        ensures
            n == region_capacity(cap as int),
            n >= cap,
    {
        let want: usize = if cap < PAGE {
            PAGE
        } else {
            cap
        };
        proof {
            vstd::arithmetic::power2::lemma2_to64();
            assert(0x4000 == vstd::arithmetic::power2::pow2(14));
            lemma_rounded_up(want as int, PAGE as int);
        }
        round_up(want, PAGE)
    }

    /// A loader over the memory that the host mapped for `cap` bytes (see
    /// [`capacity`](MacJit::capacity)) at `region`, and made writable.
    pub fn with_capacity(cap: usize, region: u64) -> (r: Result<MacJit, LoadError>)
        requires
            cap + PAGE <= usize::MAX,
            !unmapped(region) ==> region + region_capacity(cap as int) <= u64::MAX,
        ensures
            match r {
                Ok(j) => !unmapped(region) && j.wf() && j.writable && j.is_fresh(
                    region,
                    region_capacity(cap as int),
                    Map::empty(),
                ),
                Err(e) => unmapped(region) && e == LoadError::NoJitMemory,
            },
    {
        let cap: usize = MacJit::capacity(cap);
        if region == MAP_FAILED || region == 0 {
            return Err(LoadError::NoJitMemory);
        }
        Ok(
            MacJit {
                space: CodeSpace::new(region, cap),
                finalized: false,
                writable: true,
                pending_text: String::new(),
            },
        )
    }

    /// A loader in builder mode: accumulates text and externs until the first lookup.
    pub fn new() -> (j: MacJit)
        ensures
            j.wf(),
            !j.writable,
            j.is_fresh(0, 0, Map::empty()),
    {
        MacJit {
            space: CodeSpace::new(0, 0),
            finalized: false,
            writable: false,
            pending_text: String::new(),
        }
    }

    /// Binds a host extern by name.
    pub fn define_extern(&mut self, name: &str, addr: u64)
        requires
            old(self).wf(),
        ensures
            final(self).wf(),
            final(self).space.externs@ == old(self).space.externs@.insert(name@, addr),
            *final(self) == (MacJit {
                space: (CodeSpace { externs: final(self).space.externs, ..old(self).space }),
                ..*old(self)
            }),
    {
        self.space.externs.insert(name.to_owned(), addr);
    }

    /// Places `m` in the region, which must be writable. Gives the module's base address.
    pub fn load_module(&mut self, m: &EncodedModule) -> (r: Result<u64, LoadError>)
        requires
            old(self).wf(),
            old(self).writable || old(self).finalized,
            m.wf(),
            old(self).space.measurable(*m),
        ensures
            final(self).wf(),
            *final(self) == (MacJit { space: final(self).space, ..*old(self) }),
            if old(self).finalized {
                r matches Err(LoadError::Finalized { loader }) && loader@ == "MacJit"@
                    && final(self).space == old(self).space
            } else {
                placing(old(self).space, final(self).space, *m, r)
            },
    {
        if self.finalized {
            return Err(LoadError::Finalized { loader: "MacJit" });
        }
        self.space.place(m)
    }

    /// Address of a defined symbol.
    pub fn lookup(&self, name: &str) -> (r: Option<u64>)
        requires
            self.wf(),
        ensures
            r == if self.space.symbols@.dom().contains(name@) {
                Some(self.space.symbols@[name@])
            } else {
                None
            },
    {
        match self.space.symbols.get(name) {
            Some(a) => Some(*a),
            None => None,
        }
    }

    /// Whether a symbol is defined.
    pub fn has_symbol(&self, name: &str) -> (b: bool)
        requires
            self.wf(),
        ensures
            b == self.space.symbols@.dom().contains(name@),
    {
        self.space.symbols.contains_key(name)
    }

    /// Appends a chunk of assembly to the text that the first lookup assembles.
    pub fn add_asm(&mut self, asm_text: &str)
        ensures
            final(self).pending_text@ == old(self).pending_text@ + asm_text@ + "\n"@,
            *final(self) == (MacJit { pending_text: final(self).pending_text, ..*old(self) }),
    {
        self.pending_text.append(asm_text);
        self.pending_text.append("\n");
    }

    /// Whether a lookup has to assemble the text and map a region first.
    pub fn needs_build(&self) -> (b: bool)
        ensures
            b == (!self.finalized && self.space.base == 0),
    {
        !self.finalized && self.space.base == 0
    }

    /// Bytes to map to place `m`.
    pub fn build_capacity(m: &EncodedModule) -> (n: usize)
        requires
            build_capacity(*m) <= usize::MAX,
        ensures
            n == build_capacity(*m),
    {
        m.code.len() + m.externs.len() * VENEER_LEN + PAGE
    }

    /// Gets the loader ready for lookups. In builder mode `m` is the assembled text and `region`
    /// the memory that the host mapped for it; otherwise they are not looked at. Places,
    /// relocates and leaves the loader finalized.
    pub fn build_if_needed(&mut self, m: &EncodedModule, region: u64) -> (r: Result<
        FinalizeStep,
        LoadError,
    >)
        requires
            old(self).wf(),
            m.wf(),
            build_capacity(*m) + PAGE <= usize::MAX,
            region_capacity(build_capacity(*m)) + m.code@.len() + PAGE <= usize::MAX,
            !unmapped(region) ==> region + region_capacity(build_capacity(*m)) <= u64::MAX,
            !unmapped(region) ==> forall|name: Seq<char>| #[trigger]
                m.symbols@.dom().contains(name) ==> region + region_capacity(build_capacity(*m))
                    + m.symbols@[name] <= u64::MAX,
        ensures
            final(self).wf(),
            if old(self).finalized {
                r == Ok::<FinalizeStep, LoadError>(FinalizeStep::Done) && *final(self) == *old(self)
            } else if old(self).space.base != 0 {
                finalizing(*old(self), *final(self), r)
            } else if unmapped(region) {
                &&& r == Err::<FinalizeStep, LoadError>(LoadError::NoJitMemory)
                &&& final(self).space.externs@ == Map::<Seq<char>, u64>::empty()
                &&& *final(self) == (MacJit {
                    space: (CodeSpace { externs: final(self).space.externs, ..old(self).space }),
                    ..*old(self)
                })
            } else {
                exists|fresh: MacJit, loaded: MacJit|
                    {
                        &&& #[trigger] fresh.is_fresh(
                            region,
                            region_capacity(build_capacity(*m)),
                            old(self).space.externs@,
                        )
                        &&& fresh.writable
                        &&& placing(
                            fresh.space,
                            loaded.space,
                            *m,
                            Ok::<u64, LoadError>(region),
                        )
                        &&& loaded == (MacJit { space: loaded.space, ..fresh })
                        &&& #[trigger] finalizing(loaded, *final(self), r)
                    }
            },
    {
        if self.finalized {
            return Ok(FinalizeStep::Done);
        }
        if self.space.base == 0 {
            let cap: usize = MacJit::build_capacity(m);
            let mut externs: NameMap<u64> = NameMap::new();
            std::mem::swap(&mut externs, &mut self.space.externs);
            let mut fresh = match MacJit::with_capacity(cap, region) {
                Ok(j) => j,
                Err(e) => {
                    return Err(e);
                },
            };
            fresh.space.externs = externs;
            let ghost first = fresh;
            let placed = fresh.load_module(m);
            proof {
                lemma_rounded_up(0, 16);
                let want = build_capacity(*m);
                lemma_rounded_up(
                    if want < PAGE {
                        PAGE as int
                    } else {
                        want
                    },
                    PAGE as int,
                );
                vstd::arithmetic::mul::lemma_mul_nonnegative(
                    m.externs@.len() as int,
                    VENEER_LEN as int,
                );
                assert(placed == Ok::<u64, LoadError>(region));
            }
            *self = fresh;
            let r = self.finalize();
            assert(first.is_fresh(
                region,
                region_capacity(build_capacity(*m)),
                old(self).space.externs@,
            ));
            return r;
        }
        self.finalize()
    }

    /// The address of `name` in a loader that is ready.
    pub fn lookup_addr(&self, name: &str) -> (r: Result<u64, LoadError>)
        requires
            self.wf(),
        ensures
            if self.space.symbols@.dom().contains(name@) {
                r == Ok::<u64, LoadError>(self.space.symbols@[name@])
            } else {
                r matches Err(LoadError::NoSymbol { name: n }) && n@ == name@
            },
    {
        match self.space.symbols.get(name) {
            Some(a) => Ok(*a),
            None => Err(LoadError::NoSymbol { name: name.to_owned() }),
        }
    }
}

impl Default for MacJit {
    fn default() -> (j: MacJit)
        ensures
            j.wf(),
            !j.writable,
            j.is_fresh(0, 0, Map::empty()),
    {
        MacJit::new()
    }
}

proof fn lemma_goal(target: u64, addend: i64)
    requires
        addend >= 0 ==> (addend as u64) == addend,
        addend < 0 ==> (addend as u64) == addend + two64(),
    ensures
        (target + (addend as u64)) % two64() == (target + addend) % two64(),
{
    if addend < 0 {
        vstd::arithmetic::div_mod::lemma_mod_multiples_vanish(1, target + addend, two64());
    }
}

/// What is to be found in the image `st.img` where `f` was applied to `img`.
pub open spec fn fixed(base: u64, img: Seq<u8>, st: Patching, f: Fix) -> bool {
    let at = f.field - base;
    let was = word_at(img, at);
    let now = word_at(st.img, at);
    match f.kind {
        RelocKind::Branch26 => {
            let dist = branch_dist(f.field, f.goal);
            if -0x800_0000 <= dist < 0x800_0000 {
                now == was | branch_bits(dist)
            } else {
                &&& st.veneers.dom().contains(f.goal)
                &&& now == was | branch_bits(branch_dist(f.field, st.veneers[f.goal]))
            }
        },
        RelocKind::AdrpPage21 => now == was | adrp_bits(page_dist(f.field, f.goal)),
        RelocKind::AddPageOff12 => now == was | add_bits(f.goal),
        RelocKind::Abs64 => st.img.subrange(at, at + 8) == le64(f.goal as int),
        _ => false,
    }
}

/// The fields of two fixes do not overlap.
pub open spec fn fixes_apart(a: Fix, b: Fix) -> bool {
    a.field + field_width(a.kind) <= b.field || b.field + field_width(b.kind) <= a.field
}

/// The fields lie in the first `used` bytes of the region, and no two overlap.
pub open spec fn fixes_tidy(base: u64, used: int, fixes: Seq<Fix>) -> bool {
    &&& forall|k: int| 0 <= k < fixes.len() ==> fix_inside(#[trigger] fixes[k], base, used)
    &&& forall|i: int, j: int|
        0 <= i < j < fixes.len() ==> fixes_apart(#[trigger] fixes[i], #[trigger] fixes[j])
}

/// Every veneer stands behind the first `used` bytes, and holds its branch.
pub open spec fn veneers_stand(base: u64, used: int, st: Patching) -> bool {
    forall|goal: u64| #[trigger]
        st.veneers.dom().contains(goal) ==> {
            let at = st.veneers[goal] - base;
            &&& used <= at
            &&& at + VENEER_LEN <= st.off
            &&& st.img.subrange(at, at + VENEER_LEN) == veneer(goal)
        }
}

/// `x` is the index of a byte of one of the first `n` fields.
pub open spec fn in_field(base: u64, fixes: Seq<Fix>, n: int, x: int) -> bool {
    exists|k: int|
        0 <= k < n && (#[trigger] fixes[k]).field <= base + x < fixes[k].field + field_width(
            fixes[k].kind,
        )
}

proof fn lemma_veneer_len(goal: u64)
    ensures
        veneer(goal).len() == VENEER_LEN,
{
    let w = veneer_words(goal);
    lemma_le_len(w[0] as int);
    lemma_le_len(w[1] as int);
    lemma_le_len(w[2] as int);
    lemma_le_len(w[3] as int);
    lemma_le_len(w[4] as int);
}

proof fn lemma_word_put(img: Seq<u8>, at: int, w: u32)
    requires
        0 <= at,
        at + 4 <= img.len(),
    ensures
        word_at(overwrite(img, at, le32(w as int)), at) == w,
{
    lemma_le_len(w as int);
    lemma_from_le32(w as int);
    assert(overwrite(img, at, le32(w as int)).subrange(at, at + 4) =~= le32(w as int));
}

/// The image changes only inside `[lo, hi)`.
spec fn same_but(a: Seq<u8>, b: Seq<u8>, lo: int, hi: int) -> bool {
    &&& a.len() == b.len()
    &&& forall|x: int| 0 <= x < a.len() && !(lo <= x < hi) ==> a[x] == b[x]
}

/// What one fix does, given the image `img` that it started from at its field.
proof fn lemma_patched(base: u64, used: int, img: Seq<u8>, st: Patching, f: Fix)
    requires
        base + st.img.len() <= u64::MAX,
        0 <= used <= st.off <= st.img.len(),
        img.len() == st.img.len(),
        fix_inside(f, base, used),
        veneers_stand(base, used, st),
        st.img.subrange(f.field - base, f.field - base + field_width(f.kind)) == img.subrange(
            f.field - base,
            f.field - base + field_width(f.kind),
        ),
        patched(base, st, f) is Ok,
    ensures
        ({
            let t = patched(base, st, f)->Ok_0;
            &&& t.img.len() == st.img.len()
            &&& st.off <= t.off <= t.img.len()
            &&& veneers_stand(base, used, t)
            &&& fixed(base, img, t, f)
            &&& forall|g: u64| #[trigger]
                st.veneers.dom().contains(g) ==> t.veneers.dom().contains(g) && t.veneers[g]
                    == st.veneers[g]
            &&& forall|x: int|
                0 <= x < used && !(f.field <= base + x < f.field + field_width(f.kind)) ==> t.img[x]
                    == st.img[x]
        }),
{
    let at = f.field - base;
    let t = patched(base, st, f)->Ok_0;
    // The state with its veneer in place.
    let v = match f.kind {
        RelocKind::Branch26 => if -0x800_0000 <= branch_dist(f.field, f.goal) < 0x800_0000 {
            st
        } else {
            with_veneer(base, st, f.goal)->Some_0
        },
        _ => st,
    };
    if v.veneers != st.veneers {
        lemma_veneer_len(f.goal);
        assert(v.img.subrange(st.off, st.off + VENEER_LEN) =~= veneer(f.goal));
        assert forall|g: u64| #[trigger] v.veneers.dom().contains(g) implies {
            let p = v.veneers[g] - base;
            &&& used <= p
            &&& p + VENEER_LEN <= v.off
            &&& v.img.subrange(p, p + VENEER_LEN) == veneer(g)
        } by {
            if g != f.goal {
                let p = v.veneers[g] - base;
                assert(st.veneers.dom().contains(g));
                assert(v.img.subrange(p, p + VENEER_LEN) =~= st.img.subrange(p, p + VENEER_LEN));
            }
        }
        assert(v.img.subrange(at, at + 4) =~= st.img.subrange(at, at + 4));
    }
    assert(veneers_stand(base, used, v));
    if field_width(f.kind) == 4 {
        assert(v.img.subrange(at, at + 4) == img.subrange(at, at + 4));
        assert(exists|bits: u32| #[trigger] ored(v.img, at, bits) == t.img) by {
            match f.kind {
                RelocKind::Branch26 => {
                    let dist = branch_dist(f.field, f.goal);
                    if -0x800_0000 <= dist < 0x800_0000 {
                        assert(ored(v.img, at, branch_bits(dist)) == t.img);
                    } else {
                        assert(ored(
                            v.img,
                            at,
                            branch_bits(branch_dist(f.field, v.veneers[f.goal])),
                        ) == t.img);
                    }
                },
                RelocKind::AdrpPage21 => {
                    assert(ored(v.img, at, adrp_bits(page_dist(f.field, f.goal))) == t.img);
                },
                _ => {
                    assert(ored(v.img, at, add_bits(f.goal)) == t.img);
                },
            }
        }
        let bits = choose|bits: u32| #[trigger] ored(v.img, at, bits) == t.img;
        lemma_le_len((word_at(v.img, at) | bits) as int);
        assert forall|b: u32| word_at(#[trigger] ored(v.img, at, b), at) == word_at(v.img, at)
            | b by {
            lemma_word_put(v.img, at, word_at(v.img, at) | b);
        }
        assert(same_but(v.img, t.img, at, at + 4));
    } else {
        lemma_le_len(f.goal as int);
        assert(t.img.subrange(at, at + 8) =~= le64(f.goal as int));
        assert(same_but(v.img, t.img, at, at + 8));
    }
    assert forall|g: u64| #[trigger] t.veneers.dom().contains(g) implies {
        let p = t.veneers[g] - base;
        &&& used <= p
        &&& p + VENEER_LEN <= t.off
        &&& t.img.subrange(p, p + VENEER_LEN) == veneer(g)
    } by {
        let p = t.veneers[g] - base;
        assert(v.veneers.dom().contains(g));
        assert(t.img.subrange(p, p + VENEER_LEN) =~= v.img.subrange(p, p + VENEER_LEN));
    }
}

/// A fix stays done while the bytes of its field and the veneers stay.
proof fn lemma_still_fixed(base: u64, img: Seq<u8>, s: Patching, t: Patching, f: Fix)
    requires
        fixed(base, img, s, f),
        s.img.subrange(f.field - base, f.field - base + field_width(f.kind)) == t.img.subrange(
            f.field - base,
            f.field - base + field_width(f.kind),
        ),
        forall|g: u64| #[trigger]
            s.veneers.dom().contains(g) ==> t.veneers.dom().contains(g) && t.veneers[g]
                == s.veneers[g],
    ensures
        fixed(base, img, t, f),
{
}

proof fn lemma_patched_all(base: u64, st: Patching, fixes: Seq<Fix>, n: int)
    requires
        base + st.img.len() <= u64::MAX,
        0 <= st.off <= st.img.len(),
        st.veneers == Map::<u64, u64>::empty(),
        fixes_tidy(base, st.off, fixes),
        0 <= n <= fixes.len(),
        patched_all(base, st, fixes, n).1 is None,
    ensures
        ({
            let t = patched_all(base, st, fixes, n).0;
            &&& t.img.len() == st.img.len()
            &&& st.off <= t.off <= t.img.len()
            &&& veneers_stand(base, st.off, t)
            &&& forall|k: int| 0 <= k < n ==> fixed(base, st.img, t, #[trigger] fixes[k])
            &&& forall|x: int|
                0 <= x < st.off && !in_field(base, fixes, n, x) ==> #[trigger] t.img[x]
                    == st.img[x]
        }),
    decreases n,
{
    if n > 0 {
        lemma_patched_all(base, st, fixes, n - 1);
        let s = patched_all(base, st, fixes, n - 1).0;
        let t = patched_all(base, st, fixes, n).0;
        let f = fixes[n - 1];
        let at = f.field - base;
        let w = field_width(f.kind);
        assert(s.img.subrange(at, at + w) =~= st.img.subrange(at, at + w)) by {
            assert forall|x: int| at <= x < at + w implies s.img[x] == st.img[x] by {
                if in_field(base, fixes, n - 1, x) {
                    let k = choose|k: int|
                        0 <= k < n - 1 && (#[trigger] fixes[k]).field <= base + x < fixes[k].field
                            + field_width(fixes[k].kind);
                    assert(fixes_apart(fixes[k], fixes[n - 1]));
                }
            }
        }
        lemma_patched(base, st.off, st.img, s, f);
        assert forall|k: int| 0 <= k < n implies fixed(base, st.img, t, #[trigger] fixes[k]) by {
            if k < n - 1 {
                let g = fixes[k];
                let p = g.field - base;
                let v = field_width(g.kind);
                assert(fixes_apart(fixes[k], fixes[n - 1]));
                assert(fix_inside(fixes[k], base, st.off));
                assert(s.img.subrange(p, p + v) =~= t.img.subrange(p, p + v));
                lemma_still_fixed(base, st.img, s, t, g);
            }
        }
        assert forall|x: int| 0 <= x < st.off && !in_field(base, fixes, n, x) implies #[trigger]
            t.img[x] == st.img[x] by {
            assert(!in_field(base, fixes, n - 1, x)) by {
                if in_field(base, fixes, n - 1, x) {
                    let k = choose|k: int|
                        0 <= k < n - 1 && (#[trigger] fixes[k]).field <= base + x < fixes[k].field
                            + field_width(fixes[k].kind);
                    assert(0 <= k < n && fixes[k].field <= base + x);
                }
            }
            assert(!(fixes[n - 1].field <= base + x < fixes[n - 1].field + w));
        }
    }
}

/// After all relocations each instruction has the bits that its relocation asks for, each branch
/// that is too long has a veneer that holds its target, and no other byte of the code has
/// changed. The fields must not overlap.
pub proof fn patching_fills_the_fields(base: u64, st: Patching, fixes: Seq<Fix>)
    requires
        base + st.img.len() <= u64::MAX,
        0 <= st.off <= st.img.len(),
        st.veneers == Map::<u64, u64>::empty(),
        fixes_tidy(base, st.off, fixes),
        patched_all(base, st, fixes, fixes.len() as int).1 is None,
    ensures
        ({
            let t = patched_all(base, st, fixes, fixes.len() as int).0;
            &&& veneers_stand(base, st.off, t)
            &&& forall|k: int| 0 <= k < fixes.len() ==> fixed(base, st.img, t, #[trigger] fixes[k])
            &&& forall|x: int|
                0 <= x < st.off && !in_field(base, fixes, fixes.len() as int, x)
                    ==> #[trigger] t.img[x] == st.img[x]
        }),
{
    lemma_patched_all(base, st, fixes, fixes.len() as int);
}

/// Each target that is too far gets one veneer, however often it is branched to: the room that
/// veneers take is their number times their length.
pub proof fn one_veneer_per_target(base: u64, st: Patching, fixes: Seq<Fix>, n: int)
    requires
        st.veneers == Map::<u64, u64>::empty(),
        0 <= n <= fixes.len(),
    ensures
        ({
            let t = patched_all(base, st, fixes, n).0;
            &&& t.veneers.dom().finite()
            &&& t.off == st.off + VENEER_LEN * t.veneers.dom().len()
            &&& t.veneers.dom().len() <= n
            &&& t.img.len() == st.img.len()
        }),
    decreases n,
{
    if n > 0 {
        one_veneer_per_target(base, st, fixes, n - 1);
    } else {
        assert(st.veneers.dom() =~= Set::<u64>::empty());
    }
}

/// `far` holds the target of each of the first `n` fixes that is a branch out of reach.
pub open spec fn far_targets(fixes: Seq<Fix>, n: int, far: Set<u64>) -> bool {
    forall|k: int|
        0 <= k < n && (#[trigger] fixes[k]).kind == RelocKind::Branch26 && !(-0x800_0000
            <= branch_dist(fixes[k].field, fixes[k].goal) < 0x800_0000) ==> far.contains(
            fixes[k].goal,
        )
}

/// With room for a veneer per target that is out of reach, relocating does not run out of it.
pub proof fn room_for_veneers(base: u64, st: Patching, fixes: Seq<Fix>, n: int, far: Set<u64>)
    requires
        st.veneers == Map::<u64, u64>::empty(),
        0 <= n <= fixes.len(),
        far.finite(),
        far_targets(fixes, n, far),
        st.off + VENEER_LEN * far.len() <= st.img.len(),
    ensures
        patched_all(base, st, fixes, n).1 != Some(LoadError::VeneersExhausted),
        patched_all(base, st, fixes, n).0.veneers.dom().subset_of(far),
    decreases n,
{
    if n > 0 {
        room_for_veneers(base, st, fixes, n - 1, far);
        one_veneer_per_target(base, st, fixes, n - 1);
        let veneers = patched_all(base, st, fixes, n - 1).0.veneers;
        let goal = fixes[n - 1].goal;
        if far.contains(goal) && !veneers.dom().contains(goal) {
            vstd::set_lib::lemma_len_subset(veneers.dom().insert(goal), far);
        }
    }
}

/// What [`MacJit::build_if_needed`] maps for a module has room for its veneers, if no more targets
/// are out of reach than the module has externs.
pub proof fn build_has_room(
    base: u64,
    m: EncodedModule,
    st: Patching,
    fixes: Seq<Fix>,
    far: Set<u64>,
)
    requires
        st.img.len() == region_capacity(build_capacity(m)),
        st.off == m.code@.len(),
        st.veneers == Map::<u64, u64>::empty(),
        far.finite(),
        far_targets(fixes, fixes.len() as int, far),
        far.len() <= m.externs@.len(),
    ensures
        patched_all(base, st, fixes, fixes.len() as int).1 != Some(LoadError::VeneersExhausted),
{
    let want = build_capacity(m);
    lemma_rounded_up(
        if want < PAGE {
            PAGE as int
        } else {
            want
        },
        PAGE as int,
    );
    room_for_veneers(base, st, fixes, fixes.len() as int, far);
}

/// Where a `b`/`bl` at `field` goes.
pub open spec fn branch_target(field: u64, word: u32) -> int {
    let imm = word as int % 0x400_0000;
    let words = if imm < 0x200_0000 {
        imm
    } else {
        imm - 0x400_0000
    };
    (field + 4 * words) % two64()
}

/// A `b`/`bl` with an empty immediate goes to `goal` once the distance is put into it, if the
/// distance is a number of words and within reach.
pub proof fn branch26_lands(field: u64, word: u32, goal: u64)
    requires
        word as int % 0x400_0000 == 0,
        -0x800_0000 <= branch_dist(field, goal) < 0x800_0000,
        branch_dist(field, goal) % 4 == 0,
    ensures
        branch_target(field, word | branch_bits(branch_dist(field, goal))) == goal,
{
    let dist = branch_dist(field, goal);
    let bits = branch_bits(dist);
    assert(word % 0x400_0000 == 0 && bits < 0x400_0000 ==> (word | bits) % 0x400_0000 == bits)
        by (bit_vector);
    let x = goal - field;
    let words = if bits < 0x200_0000 {
        bits as int
    } else {
        bits - 0x400_0000
    };
    assert(4 * words == dist);
    let q = x / two64();
    let k = if dist < 0 {
        q + 1
    } else {
        q
    };
    assert(goal == two64() * k + (field + dist));
    vstd::arithmetic::div_mod::lemma_mod_multiples_vanish(k, field + dist, two64());
}

/// What an `adrp` at `field` computes.
pub open spec fn adrp_result(field: u64, word: u32) -> int {
    let imm = word as int / 32 % 0x8_0000 * 4 + word as int / 0x2000_0000 % 4;
    let pages = if imm < 0x10_0000 {
        imm
    } else {
        imm - 0x20_0000
    };
    (0x1000 * (page_of(field) + pages)) % two64()
}

/// What an `add` of an immediate adds.
pub open spec fn add_imm(word: u32) -> int {
    word as int / 0x400 % 0x1000
}

/// An `adrp` and an `add` with empty immediates, once relocated to the same target, together
/// compute its address.
pub proof fn adrp_and_add_reach(field: u64, adrp: u32, add_word: u32, goal: u64)
    requires
        adrp as int / 32 % 0x8_0000 == 0,
        adrp as int / 0x2000_0000 % 4 == 0,
        add_word as int / 0x400 % 0x1000 == 0,
        -0x10_0000 <= page_dist(field, goal) < 0x10_0000,
    ensures
        adrp_result(field, adrp | adrp_bits(page_dist(field, goal))) + add_imm(
            add_word | add_bits(goal),
        ) == goal,
{
    let pages = page_dist(field, goal);
    let d = pages % 0x20_0000;
    let bits = adrp_bits(pages);
    let off = add_bits(goal);
    let lo = (d % 4) as u32;
    let hi = (d / 4) as u32;
    assert(bits == lo * 0x2000_0000 + hi * 32);
    assert(lo < 4 && hi < 0x8_0000 && bits == lo * 0x2000_0000 + hi * 32 && adrp / 32 % 0x8_0000
        == 0 && adrp / 0x2000_0000 % 4 == 0 ==> (adrp | bits) / 32 % 0x8_0000 == hi && (adrp | bits)
        / 0x2000_0000 % 4 == lo) by (bit_vector);
    let o = (goal as int % 0x1000) as u32;
    assert(off == o * 0x400);
    assert(o < 0x1000 && off == o * 0x400 && add_word / 0x400 % 0x1000 == 0 ==> (add_word | off)
        / 0x400 % 0x1000 == o) by (bit_vector);
    let x = 0x1000 * (page_of(goal) - page_of(field));
    let rel = signed64(x);
    let k = if x < 0 && rel >= 0 {
        1int
    } else if x >= 0 && rel < 0 {
        -1
    } else {
        0
    };
    assert(rel == x + k * two64());
    assert(rel == 0x1000 * pages);
    assert(0x1000 * (page_of(field) + pages) == two64() * k + 0x1000 * page_of(goal));
    vstd::arithmetic::div_mod::lemma_mod_multiples_vanish(k, 0x1000 * page_of(goal), two64());
    assert(0x1000 * page_of(goal) + goal as int % 0x1000 == goal);
}

/// A branch of fewer than 2^27 bytes leads from `field` to `goal`.
pub open spec fn in_branch_reach(field: int, goal: int) -> bool {
    exists|d: int|
        -0x800_0000 <= d < 0x800_0000 && #[trigger] ((field + d) % 0x1_0000_0000_0000_0000) == goal
}

/// From `at` on, `img` holds `movz x16, #a`, `movk x16, #b, lsl #16`, `movk x16, #c, lsl #32`,
/// `movk x16, #d, lsl #48` and `br x16`, which together go to `goal`.
#[verifier::opaque]
pub open spec fn veneer_goes_to(img: Seq<u8>, at: int, goal: int) -> bool {
    let a = spelled32(img, at) / 32 % 0x1_0000;
    let b = spelled32(img, at + 4) / 32 % 0x1_0000;
    let c = spelled32(img, at + 8) / 32 % 0x1_0000;
    let d = spelled32(img, at + 12) / 32 % 0x1_0000;
    &&& spelled32(img, at) == 0xD280_0010 + 32 * a
    &&& spelled32(img, at + 4) == 0xF2A0_0010 + 32 * b
    &&& spelled32(img, at + 8) == 0xF2C0_0010 + 32 * c
    &&& spelled32(img, at + 12) == 0xF2E0_0010 + 32 * d
    &&& spelled32(img, at + 16) == 0xD61F_0200
    &&& goal == a + 0x1_0000 * b + 0x1_0000_0000 * c + 0x1_0000_0000_0000 * d
}

/// The `b` or `bl` at `field`, which spelled `was` and spells `now`, goes to `goal` and is else
/// unchanged. Where `goal` is out of reach it goes to a veneer behind the code, which does. The
/// distances are numbers of words, and the region is no larger than what a branch reaches.
pub open spec fn branch_goes_to(
    c: CodeSpace,
    img: Seq<u8>,
    field: int,
    was: int,
    now: int,
    goal: int,
) -> bool {
    let to = branch_target(field as u64, now as u32);
    was % 0x400_0000 == 0 ==> {
        &&& now / 0x400_0000 == was / 0x400_0000
        &&& in_branch_reach(field, goal) && (goal - field) % 4 == 0 ==> to == goal
        &&& !in_branch_reach(field, goal) && (c.base + c.used - field) % 4 == 0 && c.image@.len()
            <= 0x800_0000 ==> {
            &&& c.base + c.used <= to
            &&& to + 20 <= c.base + img.len()
            &&& veneer_goes_to(img, to - c.base, goal)
        }
    }
}

/// The `adrp` at `field`, which spelled `was` and spells `now`, computes the page of `goal` into
/// the same register.
pub open spec fn adrp_goes_to(field: int, was: int, now: int, goal: int) -> bool {
    was / 32 % 0x8_0000 == 0 && was / 0x2000_0000 % 4 == 0 ==> {
        &&& adrp_result(field as u64, now as u32) == goal - goal % 0x1000
        &&& now % 32 == was % 32
        &&& now / 0x100_0000 % 32 == was / 0x100_0000 % 32
        &&& now / 0x8000_0000 == was / 0x8000_0000
    }
}

/// The `add` that spelled `was` and spells `now` adds the place of `goal` in its page, between the
/// same registers.
pub open spec fn add_goes_to(was: int, now: int, goal: int) -> bool {
    was / 0x400 % 0x1000 == 0 ==> {
        &&& add_imm(now as u32) == goal % 0x1000
        &&& now % 0x400 == was % 0x400
        &&& now / 0x40_0000 == was / 0x40_0000
    }
}

/// In the image `img`, the instruction or cell of the relocation `r` of the module at `base` leads
/// to where the relocation wants to go, if the field was empty in the image of `c`.
pub open spec fn arm_reaches(c: CodeSpace, img: Seq<u8>, base: u64, r: Reloc) -> bool {
    let field = base + r.at;
    let was = spelled32(c.image@, field - c.base);
    let now = spelled32(img, field - c.base);
    match r.kind {
        RelocKind::Branch26 => exists|goal: int| #[trigger]
            wants(c, r, goal) && branch_goes_to(c, img, field, was, now, goal),
        RelocKind::AdrpPage21 => exists|goal: int| #[trigger]
            wants(c, r, goal) && adrp_goes_to(field, was, now, goal),
        RelocKind::AddPageOff12 => exists|goal: int| #[trigger]
            wants(c, r, goal) && add_goes_to(was, now, goal),
        RelocKind::Abs64 => wants(c, r, spelled64(img, field - c.base)),
        _ => false,
    }
}

proof fn lemma_word(img: Seq<u8>, at: int)
    requires
        0 <= at,
        at + 4 <= img.len(),
    ensures
        word_at(img, at) == spelled32(img, at),
        0 <= spelled32(img, at) < 0x1_0000_0000,
{
    let s = img.subrange(at, at + 4);
    assert(s[0] == img[at] && s[1] == img[at + 1] && s[2] == img[at + 2] && s[3] == img[at + 3]);
}

/// Targets are found for all jobs, in their order, or for none.
proof fn lemma_fixes(
    symbols: Map<Seq<char>, u64>,
    externs: Map<Seq<char>, u64>,
    work: Seq<(u64, Reloc)>,
    n: int,
)
    requires
        0 <= n <= work.len(),
    ensures
        match fixes_of(symbols, externs, work, n) {
            Ok(v) => v.len() == n && forall|k: int|
                0 <= k < n ==> fix_of(symbols, externs, #[trigger] work[k]) == Ok::<Fix, LoadError>(
                    v[k],
                ),
            Err(e) => exists|k: int|
                0 <= k < n && fix_of(symbols, externs, #[trigger] work[k]) == Err::<Fix, LoadError>(
                    e,
                ),
        },
    decreases n,
{
    if n > 0 {
        lemma_fixes(symbols, externs, work, n - 1);
        match fixes_of(symbols, externs, work, n - 1) {
            Ok(v) => {
                assert(fix_of(symbols, externs, work[n - 1]) == fix_of(
                    symbols,
                    externs,
                    work[n - 1],
                ));
            },
            Err(e) => {
                let k = choose|k: int|
                    0 <= k < n - 1 && fix_of(symbols, externs, #[trigger] work[k]) == Err::<
                        Fix,
                        LoadError,
                    >(e);
                assert(0 <= k < n && fix_of(symbols, externs, work[k]) == Err::<Fix, LoadError>(e));
            },
        }
    }
}

proof fn lemma_in_branch_reach(field: u64, goal: u64)
    ensures
        in_branch_reach(field as int, goal as int) == (-0x800_0000 <= branch_dist(field, goal)
            < 0x800_0000),
{
    let x = goal - field;
    let dist = branch_dist(field, goal);
    if -0x800_0000 <= dist < 0x800_0000 {
        let k = (dist - x) / two64();
        assert(dist == x + two64() * k) by {
            vstd::arithmetic::div_mod::lemma_fundamental_div_mod(x, two64());
        }
        vstd::arithmetic::div_mod::lemma_mod_multiples_vanish(k, goal as int, two64());
        assert((field + dist) % 0x1_0000_0000_0000_0000 == goal);
    }
    if in_branch_reach(field as int, goal as int) {
        let d = choose|d: int|
            -0x800_0000 <= d < 0x800_0000 && #[trigger] ((field as int + d)
                % 0x1_0000_0000_0000_0000) == goal as int;
        vstd::arithmetic::div_mod::lemma_fundamental_div_mod(field as int + d, two64());
        let k = (field as int + d) / two64();
        assert(x == two64() * (-k) + d);
        vstd::arithmetic::div_mod::lemma_mod_multiples_vanish(-k, d, two64());
    }
}

/// A veneer as it is written goes to its target.
proof fn lemma_veneer_goes(img: Seq<u8>, at: int, goal: u64)
    requires
        0 <= at,
        at + VENEER_LEN <= img.len(),
        img.subrange(at, at + VENEER_LEN) == veneer(goal),
    ensures
        veneer_goes_to(img, at, goal as int),
{
    reveal(veneer_goes_to);
    let w = veneer_words(goal);
    let v = veneer(goal);
    lemma_le_len(w[0] as int);
    lemma_le_len(w[1] as int);
    lemma_le_len(w[2] as int);
    lemma_le_len(w[3] as int);
    lemma_le_len(w[4] as int);
    assert forall|k: int| 0 <= k < 5 implies spelled32(img, at + 4 * k) == #[trigger] w[k] by {
        lemma_from_le32(w[k] as int);
        let s = le32(w[k] as int);
        assert(v.subrange(4 * k, 4 * k + 4) =~= s);
        assert(s[0] == v[4 * k] && s[1] == v[4 * k + 1] && s[2] == v[4 * k + 2] && s[3] == v[4 * k
            + 3]);
        let t = img.subrange(at, at + VENEER_LEN);
        assert(t[4 * k] == img[at + 4 * k] && t[4 * k + 1] == img[at + 4 * k + 1] && t[4 * k + 2]
            == img[at + 4 * k + 2] && t[4 * k + 3] == img[at + 4 * k + 3]);
    }
    assert(spelled32(img, at + 4 * 0) == w[0]);
    assert(spelled32(img, at + 4 * 1) == w[1]);
    assert(spelled32(img, at + 4 * 2) == w[2]);
    assert(spelled32(img, at + 4 * 3) == w[3]);
    assert(spelled32(img, at + 4 * 4) == w[4]);
    veneer_loads_the_address(goal);
    lemma_imm16(0x694, group(goal, 0));
    lemma_imm16(0x795, group(goal, 1));
    lemma_imm16(0x796, group(goal, 2));
    lemma_imm16(0x797, group(goal, 3));
}

/// The bits of a branch other than its distance stay.
proof fn lemma_branch_opcode(word: u32, bits: u32)
    requires
        word % 0x400_0000 == 0,
        bits < 0x400_0000,
    ensures
        (word | bits) / 0x400_0000 == word / 0x400_0000,
{
    assert(word % 0x400_0000 == 0 && bits < 0x400_0000 ==> (word | bits) / 0x400_0000 == word
        / 0x400_0000) by (bit_vector);
}

/// A branch whose distance to `to` is put in keeps its opcode, and goes there where the distance
/// is a number of words.
proof fn lemma_branch_put(field: u64, was: u32, to: u64)
    requires
        was % 0x400_0000 == 0,
    ensures
        ({
            let now = was | branch_bits(branch_dist(field, to));
            &&& now as int / 0x400_0000 == was as int / 0x400_0000
            &&& -0x800_0000 <= branch_dist(field, to) < 0x800_0000 && (to - field) % 4 == 0
                ==> branch_target(field, now) == to
        }),
{
    let dist = branch_dist(field, to);
    lemma_branch_opcode(was, branch_bits(dist));
    if -0x800_0000 <= dist < 0x800_0000 && (to - field) % 4 == 0 {
        assert(dist % 4 == 0);
        branch26_lands(field, was, to);
    }
}

/// A branch in reach goes to its target.
proof fn lemma_branch_near(c: CodeSpace, img: Seq<u8>, field: u64, was: u32, goal: u64)
    requires
        -0x800_0000 <= branch_dist(field, goal) < 0x800_0000,
    ensures
        branch_goes_to(
            c,
            img,
            field as int,
            was as int,
            (was | branch_bits(branch_dist(field, goal))) as int,
            goal as int,
        ),
{
    lemma_in_branch_reach(field, goal);
    if was % 0x400_0000 == 0 {
        lemma_branch_put(field, was, goal);
    }
}

/// A branch out of reach goes to the veneer at `v`.
#[verifier::spinoff_prover]
#[verifier::rlimit(60)]
proof fn lemma_branch_far(c: CodeSpace, img: Seq<u8>, field: u64, was: u32, v: u64, goal: u64)
    requires
        !(-0x800_0000 <= branch_dist(field, goal) < 0x800_0000),
        c.base <= field <= c.base + c.used <= v,
        v + 20 <= c.base + img.len(),
        img.len() == c.image@.len(),
        (v - c.base - c.used) % 4 == 0,
        veneer_goes_to(img, v - c.base, goal as int),
    ensures
        branch_goes_to(
            c,
            img,
            field as int,
            was as int,
            (was | branch_bits(branch_dist(field, v))) as int,
            goal as int,
        ),
{
    lemma_in_branch_reach(field, goal);
    if was % 0x400_0000 == 0 {
        lemma_branch_put(field, was, v);
        if (c.base + c.used - field) % 4 == 0 && c.image@.len() <= 0x800_0000 {
            assert(branch_dist(field, v) == v - field);
            assert((v - field) % 4 == 0);
        }
    }
}

proof fn lemma_branch_goes(c: CodeSpace, st: Patching, f: Fix)
    requires
        c.base + c.image@.len() <= u64::MAX,
        c.used <= c.image@.len(),
        c.image@.len() == st.img.len(),
        f.kind == RelocKind::Branch26,
        fix_inside(f, c.base, c.used as int),
        fixed(c.base, c.image@, st, f),
        veneers_stand(c.base, c.used as int, st),
        st.off <= st.img.len(),
        veneers_in_words(c.base, c.used as int, st),
    ensures
        branch_goes_to(
            c,
            st.img,
            f.field as int,
            word_at(c.image@, f.field - c.base) as int,
            word_at(st.img, f.field - c.base) as int,
            f.goal as int,
        ),
{
    let was = word_at(c.image@, f.field - c.base);
    let dist = branch_dist(f.field, f.goal);
    if -0x800_0000 <= dist < 0x800_0000 {
        lemma_branch_near(c, st.img, f.field, was, f.goal);
    } else {
        let v = st.veneers[f.goal];
        assert(st.veneers.dom().contains(f.goal));
        lemma_veneer_goes(st.img, v - c.base, f.goal);
        lemma_branch_far(c, st.img, f.field, was, v, f.goal);
    }
}

/// Veneers stand whole numbers of words behind the code.
pub open spec fn veneers_in_words(base: u64, used: int, st: Patching) -> bool {
    forall|goal: u64| #[trigger]
        st.veneers.dom().contains(goal) ==> (st.veneers[goal] - base - used) % 4 == 0
}

proof fn lemma_veneers_in_words(base: u64, st: Patching, fixes: Seq<Fix>, n: int)
    requires
        base + st.img.len() <= u64::MAX,
        0 <= st.off <= st.img.len(),
        st.veneers == Map::<u64, u64>::empty(),
        0 <= n <= fixes.len(),
    ensures
        ({
            let t = patched_all(base, st, fixes, n).0;
            &&& veneers_in_words(base, st.off, t)
            &&& (t.off - st.off) % 4 == 0
            &&& 0 <= t.off
            &&& t.img.len() == st.img.len()
        }),
    decreases n,
{
    if n > 0 {
        lemma_veneers_in_words(base, st, fixes, n - 1);
    }
}

proof fn lemma_adrp_goes(field: u64, was: u32, goal: u64)
    requires
        -0x10_0000 <= page_dist(field, goal) < 0x10_0000,
    ensures
        adrp_goes_to(
            field as int,
            was as int,
            (was | adrp_bits(page_dist(field, goal))) as int,
            goal as int,
        ),
{
    let bits = adrp_bits(page_dist(field, goal));
    if was / 32 % 0x8_0000 == 0 && was / 0x2000_0000 % 4 == 0 {
        adrp_and_add_reach(field, was, 0, goal);
        lemma_add_goes(0, goal);
        let d = page_dist(field, goal) % 0x20_0000;
        let lo = (d % 4) as u32;
        let hi = (d / 4) as u32;
        assert(bits == lo * 0x2000_0000 + hi * 32);
        assert(lo < 4 && hi < 0x8_0000 && bits == lo * 0x2000_0000 + hi * 32 && was / 32 % 0x8_0000
            == 0 && was / 0x2000_0000 % 4 == 0 ==> (was | bits) % 32 == was % 32 && (was | bits)
            / 0x100_0000 % 32 == was / 0x100_0000 % 32 && (was | bits) / 0x8000_0000 == was
            / 0x8000_0000) by (bit_vector);
    }
}

proof fn lemma_add_goes(was: u32, goal: u64)
    ensures
        add_goes_to(was as int, (was | add_bits(goal)) as int, goal as int),
{
    let off = add_bits(goal);
    let o = (goal as int % 0x1000) as u32;
    assert(off == o * 0x400);
    assert(o < 0x1000 && off == o * 0x400 && was / 0x400 % 0x1000 == 0 ==> (was | off) / 0x400
        % 0x1000 == o && (was | off) % 0x400 == was % 0x400 && (was | off) / 0x40_0000 == was
        / 0x40_0000) by (bit_vector);
}

proof fn lemma_fix_reaches(c: CodeSpace, st: Patching, job: (u64, Reloc), f: Fix)
    requires
        c.wf(),
        c.image@.len() == st.img.len(),
        field_inside(job, c.base, c.used),
        fix_of(c.symbols@, c.externs@, job) == Ok::<Fix, LoadError>(f),
        fixed(c.base, c.image@, st, f),
        f.kind == RelocKind::AdrpPage21 ==> -0x10_0000 <= page_dist(f.field, f.goal) < 0x10_0000,
        veneers_stand(c.base, c.used as int, st),
        st.off <= st.img.len(),
        veneers_in_words(c.base, c.used as int, st),
    ensures
        arm_reaches(c, st.img, job.0, job.1),
{
    let r = job.1;
    let at = f.field - c.base;
    let goal = f.goal as int;
    assert(wants(c, r, goal));
    assert(f.field == job.0 + r.at);
    lemma_word(c.image@, at);
    lemma_word(st.img, at);
    match r.kind {
        RelocKind::Branch26 => lemma_branch_goes(c, st, f),
        RelocKind::AdrpPage21 => lemma_adrp_goes(f.field, word_at(c.image@, at), f.goal),
        RelocKind::AddPageOff12 => lemma_add_goes(word_at(c.image@, at), f.goal),
        RelocKind::Abs64 => {
            lemma_from_le64(goal);
            let bytes = st.img.subrange(at, at + 8);
            let high = bytes.skip(4);
            assert(bytes[0] == st.img[at] && bytes[1] == st.img[at + 1] && bytes[2] == st.img[at
                + 2] && bytes[3] == st.img[at + 3]);
            assert(high[0] == st.img[at + 4] && high[1] == st.img[at + 5] && high[2] == st.img[at
                + 6] && high[3] == st.img[at + 7]);
            assert(spelled64(st.img, at) == from_le32(bytes) + 0x1_0000_0000 * from_le32(high));
        },
        _ => {},
    }
}

/// Where all fixes go through, each page is in reach.
proof fn lemma_pages_in_reach(base: u64, st: Patching, fixes: Seq<Fix>, n: int)
    requires
        0 <= n <= fixes.len(),
        patched_all(base, st, fixes, n).1 is None,
    ensures
        forall|k: int|
            0 <= k < n && (#[trigger] fixes[k]).kind == RelocKind::AdrpPage21 ==> -0x10_0000
                <= page_dist(fixes[k].field, fixes[k].goal) < 0x10_0000,
    decreases n,
{
    if n > 0 {
        lemma_pages_in_reach(base, st, fixes, n - 1);
    }
}

/// Once the loader is finalized, every relocation of every module that was placed leads to its
/// target, and no other byte of the code has changed. No two relocations may patch the same byte.
pub proof fn finalized_code_reaches_its_targets(
    before: MacJit,
    after: MacJit,
    r: Result<FinalizeStep, LoadError>,
)
    requires
        before.wf(),
        finalizing(before, after, r),
        r is Ok,
        fields_lie_apart(before.space.placed@),
    ensures
        forall|p: int, i: int| #[trigger]
            is_reloc(before.space.placed@, p, i) ==> arm_reaches(
                before.space,
                after.space.image@,
                before.space.placed@[p].base,
                before.space.placed@[p].relocs@[i],
            ),
        after.space.image@.len() == before.space.image@.len(),
        before.space.used <= after.space.used <= after.space.image@.len(),
        forall|x: int|
            0 <= x < before.space.used && !is_patched(
                before.space.placed@,
                before.space.base + x,
            ) ==> #[trigger] after.space.image@[x] == before.space.image@[x],
{
    let c = before.space;
    let placed = c.placed@;
    let work = jobs(placed);
    let n = work.len() as int;
    let fixes = fixes_of(c.symbols@, c.externs@, work, n)->Ok_0;
    let st = Patching { img: c.image@, off: c.used as int, veneers: Map::empty() };
    let t = patched_all(c.base, st, fixes, n).0;
    lemma_fixes(c.symbols@, c.externs@, work, n);
    assert forall|k: int| 0 <= k < n implies {
        let (p, i) = origin(placed, #[trigger] fixes[k], k);
        &&& is_reloc(placed, p, i)
        &&& k == first_job(placed, p) + i
        &&& fixes[k].field == field_at(placed, p, i)
        &&& fixes[k].kind == placed[p].relocs@[i].kind
        &&& fix_inside(fixes[k], c.base, c.used as int)
    } by {
        let (p, i) = every_job_is_a_relocation(placed, k);
        assert(origin_of(placed, k, (p, i)));
        let (q, j) = origin(placed, fixes[k], k);
        assert(origin_of(placed, k, (q, j)));
        assert(fix_of(c.symbols@, c.externs@, work[k]) == Ok::<Fix, LoadError>(fixes[k]));
        let rel = c.placed@[q].relocs@[j];
    }
    assert forall|a: int, b: int| 0 <= a < b < n implies fixes_apart(
        #[trigger] fixes[a],
        #[trigger] fixes[b],
    ) by {
        let (p, i) = origin(placed, fixes[a], a);
        let (q, j) = origin(placed, fixes[b], b);
        assert(is_reloc(placed, p, i) && is_reloc(placed, q, j));
    }
    lemma_patched_all(c.base, st, fixes, n);
    lemma_veneers_in_words(c.base, st, fixes, n);
    lemma_pages_in_reach(c.base, st, fixes, n);
    assert forall|p: int, i: int| #[trigger] is_reloc(placed, p, i) implies arm_reaches(
        c,
        t.img,
        placed[p].base,
        placed[p].relocs@[i],
    ) by {
        every_relocation_is_queued(placed, p, i);
        let k = first_job(placed, p) + i;
        let rel = c.placed@[p].relocs@[i];
        assert(fixed(c.base, c.image@, t, fixes[k]));
        assert(fix_of(c.symbols@, c.externs@, work[k]) == Ok::<Fix, LoadError>(fixes[k]));
        lemma_fix_reaches(c, t, work[k], fixes[k]);
    }
    assert forall|x: int|
        0 <= x < c.used && !is_patched(placed, c.base + x) implies #[trigger] t.img[x]
        == c.image@[x] by {
        if in_field(c.base, fixes, n, x) {
            let k = choose|k: int|
                0 <= k < n && (#[trigger] fixes[k]).field <= c.base + x < fixes[k].field
                    + field_width(fixes[k].kind);
            let (p, i) = origin(placed, fixes[k], k);
            assert(is_reloc(placed, p, i));
        }
    }
}

/// The `k`th job is the relocation of these numbers.
spec fn origin_of(placed: Seq<Placed>, k: int, pi: (int, int)) -> bool {
    &&& is_reloc(placed, pi.0, pi.1)
    &&& k == first_job(placed, pi.0) + pi.1
    &&& jobs(placed)[k] == (placed[pi.0].base, placed[pi.0].relocs@[pi.1])
}

/// The numbers of the relocation that the `k`th job, with its target found as `f`, stems from.
spec fn origin(placed: Seq<Placed>, f: Fix, k: int) -> (int, int) {
    choose|pi: (int, int)| origin_of(placed, k, pi)
}

/// An `adrp` of at most 2^20 pages leads from `field` to the page of `goal`.
pub open spec fn in_page_reach(field: int, goal: int) -> bool {
    exists|d: int|
        -0x10_0000 <= d < 0x10_0000 && #[trigger] (0x1000 * (field / 0x1000 + d)
            % 0x1_0000_0000_0000_0000) == goal - goal % 0x1000
}

/// The relocation `r` of the module at `base` can be satisfied, given room for a veneer.
pub open spec fn arm_satisfiable(c: CodeSpace, base: u64, r: Reloc) -> bool {
    match r.kind {
        RelocKind::Branch26 | RelocKind::AddPageOff12 | RelocKind::Abs64 => exists|goal: int|
            #[trigger] wants(c, r, goal),
        RelocKind::AdrpPage21 => exists|goal: int| #[trigger]
            wants(c, r, goal) && in_page_reach(base + r.at, goal),
        _ => false,
    }
}

/// `e` says why the relocation `r` of the module at `base` could not be satisfied: its target is
/// neither defined nor bound, its page or, for want of a veneer, its target is out of reach, or
/// its kind is one of another machine.
pub open spec fn arm_blames(c: CodeSpace, base: u64, r: Reloc, e: LoadError) -> bool {
    match e {
        LoadError::Unresolved { target } => target == r.target && !c.symbols@.dom().contains(
            r.target@,
        ) && !c.externs@.dom().contains(r.target@),
        LoadError::VeneersExhausted => r.kind == RelocKind::Branch26 && exists|goal: int| #[trigger]
            wants(c, r, goal) && !in_branch_reach(base + r.at, goal),
        LoadError::AdrpRange => r.kind == RelocKind::AdrpPage21 && exists|goal: int| #[trigger]
            wants(c, r, goal) && !in_page_reach(base + r.at, goal),
        LoadError::ForeignKind { kind } => kind == r.kind && (kind == RelocKind::BranchRel32 || kind
            == RelocKind::RipRel32),
        _ => false,
    }
}

proof fn lemma_in_page_reach(field: u64, goal: u64)
    ensures
        in_page_reach(field as int, goal as int) == (-0x10_0000 <= page_dist(field, goal)
            < 0x10_0000),
{
    let x = 0x1000 * (page_of(goal) - page_of(field));
    let rel = signed64(x);
    let pages = page_dist(field, goal);
    assert(goal as int - goal as int % 0x1000 == 0x1000 * page_of(goal));
    let k = (rel - x) / two64();
    assert(rel == x + two64() * k) by {
        vstd::arithmetic::div_mod::lemma_fundamental_div_mod(x, two64());
    }
    assert(rel == 0x1000 * pages);
    if -0x10_0000 <= pages < 0x10_0000 {
        vstd::arithmetic::div_mod::lemma_mod_multiples_vanish(k, 0x1000 * page_of(goal), two64());
        assert(0x1000 * (field as int / 0x1000 + pages) % 0x1_0000_0000_0000_0000 == goal as int
            - goal as int % 0x1000);
    }
    if in_page_reach(field as int, goal as int) {
        let d = choose|d: int|
            -0x10_0000 <= d < 0x10_0000 && #[trigger] (0x1000 * (field as int / 0x1000 + d)
                % 0x1_0000_0000_0000_0000) == goal as int - goal as int % 0x1000;
        let y = 0x1000 * (field as int / 0x1000 + d);
        vstd::arithmetic::div_mod::lemma_fundamental_div_mod(y, two64());
        let q = y / two64();
        assert(x == two64() * (-q) + 0x1000 * d);
        vstd::arithmetic::div_mod::lemma_mod_multiples_vanish(-q, 0x1000 * d, two64());
    }
}

/// The `k`th fix is the first that fails, because of `e`.
spec fn fails_at(base: u64, st: Patching, fixes: Seq<Fix>, k: int, e: LoadError) -> bool {
    &&& patched_all(base, st, fixes, k).1 is None
    &&& patched(base, patched_all(base, st, fixes, k).0, fixes[k]) == Err::<Patching, LoadError>(e)
}

proof fn lemma_fails_at(base: u64, st: Patching, fixes: Seq<Fix>, n: int) -> (k: int)
    requires
        0 <= n <= fixes.len(),
        patched_all(base, st, fixes, n).1 is Some,
    ensures
        0 <= k < n,
        fails_at(base, st, fixes, k, patched_all(base, st, fixes, n).1.unwrap()),
    decreases n,
{
    if patched_all(base, st, fixes, n - 1).1 is Some {
        lemma_fails_at(base, st, fixes, n - 1)
    } else {
        n - 1
    }
}

/// Where all fixes go through, each is of this machine.
proof fn lemma_kinds_fit(base: u64, st: Patching, fixes: Seq<Fix>, n: int)
    requires
        0 <= n <= fixes.len(),
        patched_all(base, st, fixes, n).1 is None,
    ensures
        forall|k: int|
            0 <= k < n ==> (#[trigger] fixes[k]).kind != RelocKind::BranchRel32 && fixes[k].kind
                != RelocKind::RipRel32,
    decreases n,
{
    if n > 0 {
        lemma_kinds_fit(base, st, fixes, n - 1);
    }
}

/// Finalizing fails only where a relocation of a placed module cannot be satisfied, and says why,
/// or where there is no room for veneers. It does not succeed where a relocation cannot be
/// satisfied, nor fail where all can and each could have a veneer of its own.
pub proof fn finalize_refuses_only_what_is_out_of_reach(
    before: MacJit,
    after: MacJit,
    r: Result<FinalizeStep, LoadError>,
)
    requires
        before.wf(),
        finalizing(before, after, r),
    ensures
        r is Ok ==> forall|p: int, i: int| #[trigger]
            is_reloc(before.space.placed@, p, i) ==> arm_satisfiable(
                before.space,
                before.space.placed@[p].base,
                before.space.placed@[p].relocs@[i],
            ),
        r matches Err(e) ==> exists|p: int, i: int| #[trigger]
            is_reloc(before.space.placed@, p, i) && arm_blames(
                before.space,
                before.space.placed@[p].base,
                before.space.placed@[p].relocs@[i],
                e,
            ),
        r == Err::<FinalizeStep, LoadError>(LoadError::VeneersExhausted)
            ==> before.space.image@.len() < before.space.used + 20 * first_job(
            before.space.placed@,
            before.space.placed@.len() as int,
        ),
        (forall|p: int, i: int| #[trigger]
            is_reloc(before.space.placed@, p, i) ==> arm_satisfiable(
                before.space,
                before.space.placed@[p].base,
                before.space.placed@[p].relocs@[i],
            )) && before.space.used + 20 * first_job(
            before.space.placed@,
            before.space.placed@.len() as int,
        ) <= before.space.image@.len() ==> r is Ok,
{
    let c = before.space;
    let placed = c.placed@;
    let work = jobs(placed);
    let n = work.len() as int;
    assert(placed.take(placed.len() as int) =~= placed);
    lemma_fixes(c.symbols@, c.externs@, work, n);
    match fixes_of(c.symbols@, c.externs@, work, n) {
        Err(e) => {
            let k = choose|k: int|
                0 <= k < n && fix_of(c.symbols@, c.externs@, #[trigger] work[k]) == Err::<
                    Fix,
                    LoadError,
                >(e);
            let (p, i) = every_job_is_a_relocation(placed, k);
            assert(is_reloc(placed, p, i));
            assert(arm_blames(c, placed[p].base, placed[p].relocs@[i], e));
        },
        Ok(fixes) => {
            let st = Patching { img: c.image@, off: c.used as int, veneers: Map::empty() };
            if patched_all(c.base, st, fixes, n).1 is None {
                lemma_pages_in_reach(c.base, st, fixes, n);
                lemma_kinds_fit(c.base, st, fixes, n);
                assert forall|p: int, i: int| #[trigger] is_reloc(placed, p, i) implies
                    arm_satisfiable(c, placed[p].base, placed[p].relocs@[i]) by {
                    every_relocation_is_queued(placed, p, i);
                    let k = first_job(placed, p) + i;
                    let rel = c.placed@[p].relocs@[i];
                    assert(fix_of(c.symbols@, c.externs@, work[k]) == Ok::<Fix, LoadError>(
                        fixes[k],
                    ));
                    assert(wants(c, rel, fixes[k].goal as int));
                    lemma_in_page_reach(fixes[k].field, fixes[k].goal);
                    assert(fixes[k].kind == rel.kind);
                }
            } else {
                let e = patched_all(c.base, st, fixes, n).1.unwrap();
                let k = lemma_fails_at(c.base, st, fixes, n);
                let (p, i) = every_job_is_a_relocation(placed, k);
                let rel = c.placed@[p].relocs@[i];
                assert(is_reloc(placed, p, i));
                assert(fix_of(c.symbols@, c.externs@, work[k]) == Ok::<Fix, LoadError>(fixes[k]));
                assert(wants(c, rel, fixes[k].goal as int));
                lemma_in_page_reach(fixes[k].field, fixes[k].goal);
                lemma_in_branch_reach(fixes[k].field, fixes[k].goal);
                one_veneer_per_target(c.base, st, fixes, k);
                assert(arm_blames(c, placed[p].base, rel, e));
            }
        },
    }
}

} // verus!
