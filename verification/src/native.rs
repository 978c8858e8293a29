//! The x86-64 loader: places modules near the host, relocates them, and hands out addresses.
//!
//! One code region lies within ±1.75 GB of an anchor address, so that `call rel32` reaches host
//! externs. It is writable while modules are placed and relocated, and executable, never both,
//! once the loader is finalized.

use vstd::prelude::*;

use crate::backend::{field_width, EncodedModule, Reloc, RelocKind};
use crate::bytes::{
    from_le32, le32, le64, lemma_cast_i64, lemma_from_le64, lemma_le32_mod, lemma_le64_mod,
    lemma_le_len, lemma_signed32, overwrite, put_le32, put_le64, signed32,
};
use crate::load::{
    every_job_is_a_relocation, every_relocation_is_queued, field_inside, fields_lie_apart,
    first_job, is_patched, is_reloc, jobs, placing, resolution, spelled32, spelled64, wants,
    CodeSpace, LoadError, Placed,
};

verus! {

/// Regions start at multiples of this.
pub const GRANULARITY: u64 = 0x1_0000;

/// How far from the anchor the region may lie: comfortably inside rel32.
pub const WINDOW: u64 = 0x7000_0000;

/// 2^64.
pub open spec fn two64() -> int {
    0x1_0000_0000_0000_0000
}

/// The number in `i64` that is congruent to `x` modulo 2^64.
pub open spec fn signed64(x: int) -> int {
    let m = x % two64();
    if m < 0x8000_0000_0000_0000 {
        m
    } else {
        m - two64()
    }
}

/// The lowest and the highest address that a region near `anchor` may take.
pub open spec fn window(anchor: u64) -> (int, int) {
    let from = if anchor < WINDOW {
        0
    } else {
        anchor - WINDOW
    };
    let low = (from + GRANULARITY - 1) / GRANULARITY as int * GRANULARITY;
    let to = if anchor + WINDOW > u64::MAX {
        u64::MAX as int
    } else {
        anchor + WINDOW
    };
    let high = to / GRANULARITY as int * GRANULARITY - 1;
    (
        if low < GRANULARITY {
            GRANULARITY as int
        } else {
            low
        },
        if high < 0 {
            0
        } else {
            high
        },
    )
}

/// From any address of the window, a rel32 displacement reaches the anchor, and the other way
/// round.
pub proof fn window_is_in_reach(anchor: u64, x: u64)
    requires
        window(anchor).0 <= x <= window(anchor).1,
    ensures
        -0x8000_0000 <= x - anchor < 0x8000_0000,
        -0x8000_0000 <= anchor - x < 0x8000_0000,
{
}

/// The window leaves out nothing that is near: a region of 64 KiB that starts at a multiple of
/// 64 KiB, and whose first and last byte are within 0x7000_0000 of the anchor, lies in it. The first
/// and the last such region of the address space are no part of it.
pub proof fn window_holds_what_is_near(anchor: u64, x: int)
    requires
        0 < x,
        x % 0x1_0000 == 0,
        x + 0x1_0000 <= u64::MAX,
        anchor - 0x7000_0000 <= x,
        x + 0xFFFF < anchor + 0x7000_0000,
    ensures
        window(anchor).0 <= x,
        x + 0xFFFF <= window(anchor).1,
        window(anchor).0 % 0x1_0000 == 0,
        window(anchor).0 > 0,
{
}

/// The window in which to look for a region near `anchor`.
pub fn near_window(anchor: u64) -> (w: (u64, u64))
    ensures
        (w.0 as int, w.1 as int) == window(anchor),
{
    let from: u64 = anchor.saturating_sub(WINDOW) + (GRANULARITY - 1);
    let to: u64 = anchor.saturating_add(WINDOW);
    assert(from & !0xffffu64 == from / 0x1_0000 * 0x1_0000) by (bit_vector);
    assert(to & !0xffffu64 == to / 0x1_0000 * 0x1_0000) by (bit_vector);
    let low: u64 = from & !(GRANULARITY - 1);
    let low: u64 = if low < GRANULARITY {
        GRANULARITY
    } else {
        low
    };
    let high: u64 = (to & !(GRANULARITY - 1)).saturating_sub(1);
    (low, high)
}

/// The bytes that a relocation puts into its field at address `field`, for a target that was
/// found at `target`.
pub open spec fn x86_field(field: u64, r: Reloc, target: u64) -> Result<Seq<u8>, LoadError> {
    match r.kind {
        RelocKind::BranchRel32 | RelocKind::RipRel32 => {
            let rel = signed64(target + r.addend - (field + 4));
            if -0x8000_0000 <= rel < 0x8000_0000 {
                Ok(le32(rel))
            } else {
                Err(
                    LoadError::Rel32Range { name: r.target, rel: rel as i64, target, site: field },
                )
            }
        },
        RelocKind::Abs64 => Ok(le64(target + r.addend)),
        _ => Err(LoadError::ForeignKind { kind: r.kind }),
    }
}

/// The address of the field of a job.
pub open spec fn field_of(job: (u64, Reloc)) -> int {
    job.0 + job.1.at
}

/// The bytes that a job puts into its field.
pub open spec fn job_bytes(
    symbols: Map<Seq<char>, u64>,
    externs: Map<Seq<char>, u64>,
    job: (u64, Reloc),
) -> Result<Seq<u8>, LoadError> {
    match resolution(symbols, externs, job.1.target@) {
        None => Err(LoadError::Unresolved { target: job.1.target }),
        Some(target) => x86_field(field_of(job) as u64, job.1, target),
    }
}

/// The image after the first `n` jobs, with the error that stopped them.
pub open spec fn relocated(
    c: CodeSpace,
    work: Seq<(u64, Reloc)>,
    n: int,
) -> (Seq<u8>, Option<LoadError>)
    decreases n,
{
    if n <= 0 {
        (c.image@, None)
    } else {
        let (img, err) = relocated(c, work, n - 1);
        if err is Some {
            (img, err)
        } else {
            match job_bytes(c.symbols@, c.externs@, work[n - 1]) {
                Ok(bytes) => (overwrite(img, field_of(work[n - 1]) - c.base, bytes), None),
                Err(e) => (img, Some(e)),
            }
        }
    }
}

/// What [`NativeJit::finalize`] asks of the host.
#[derive(Clone, Copy, Debug, PartialEq, Eq, Structural)]
pub enum FinalizeStep {
    /// The loader is finalized.
    Done,
    /// Copy the image into the region, make it executable, and report to
    /// [`NativeJit::protected`].
    Protect,
}

pub struct NativeJit {
    pub space: CodeSpace,
    pub finalized: bool,
}

impl NativeJit {
    pub open spec fn wf(&self) -> bool {
        self.space.wf()
    }

    /// Takes over `cap` bytes of zeroed code space at `region`, which the host found within rel32
    /// of `anchor`. A region at zero means that there was none.
    pub fn new_near(anchor: u64, region: u64, cap: usize, last_error: u32) -> (r: Result<
        NativeJit,
        LoadError,
    >)
        requires
            region + cap <= u64::MAX,
        ensures
            match r {
                Ok(j) => {
                    &&& region != 0
                    &&& j.wf()
                    &&& !j.finalized
                    &&& j.space.base == region
                    &&& j.space.image@ == Seq::new(cap as nat, |i: int| 0u8)
                    &&& j.space.used == 0
                    &&& j.space.symbols@ == Map::<Seq<char>, u64>::empty()
                    &&& j.space.externs@ == Map::<Seq<char>, u64>::empty()
                    &&& j.space.placed@ == Seq::<Placed>::empty()
                },
                Err(e) => region == 0 && e == (LoadError::NoRegion { anchor, last_error }),
            },
    {
        if region == 0 {
            return Err(LoadError::NoRegion { anchor, last_error });
        }
        Ok(NativeJit { space: CodeSpace::new(region, cap), finalized: false })
    }

    /// Binds a host extern by name.
    pub fn define_extern(&mut self, name: &str, addr: u64)
        requires
            old(self).wf(),
        ensures
            final(self).wf(),
            final(self).space.externs@ == old(self).space.externs@.insert(name@, addr),
            *final(self) == (NativeJit {
                space: (CodeSpace { externs: final(self).space.externs, ..old(self).space }),
                ..*old(self)
            }),
    {
        self.space.externs.insert(name.to_owned(), addr);
    }

    /// Places `m` in the region. Gives the module's base address.
    pub fn load_module(&mut self, m: &EncodedModule) -> (r: Result<u64, LoadError>)
        requires
            old(self).wf(),
            m.wf(),
            old(self).space.measurable(*m),
        ensures
            final(self).wf(),
            final(self).finalized == old(self).finalized,
            if old(self).finalized {
                r matches Err(LoadError::Finalized { loader }) && loader@ == "NativeJit"@
                    && final(self).space == old(self).space
            } else {
                placing(old(self).space, final(self).space, *m, r)
            },
    {
        if self.finalized {
            return Err(LoadError::Finalized { loader: "NativeJit" });
        }
        self.space.place(m)
    }

    /// Applies the relocation `r` of the module at `base`, whose target is at `target`.
    fn apply_reloc(&mut self, base: u64, r: &Reloc, target: u64) -> (res: Result<(), LoadError>)
        requires
            old(self).wf(),
            field_inside((base, *r), old(self).space.base, old(self).space.used),
        ensures
            *final(self) == (NativeJit {
                space: (CodeSpace { image: final(self).space.image, ..old(self).space }),
                ..*old(self)
            }),
            match x86_field((base + r.at) as u64, *r, target) {
                Ok(bytes) => res is Ok && final(self).space.image@ == overwrite(
                    old(self).space.image@,
                    base + r.at - old(self).space.base,
                    bytes,
                ),
                Err(e) => res == Err::<(), LoadError>(e) && final(self).space == old(self).space,
            },
    {
        let field: u64 = base + r.at as u64;
        let at: usize = (field - self.space.base) as usize;
        let goal: u64 = target.wrapping_add(r.addend as u64);
        proof {
            lemma_cast_i64(r.addend);
        }
        match r.kind {
            RelocKind::BranchRel32 | RelocKind::RipRel32 => {
                let dist: u64 = goal.wrapping_sub(field + 4);
                proof {
                    lemma_dist(target, r.addend, field, goal, dist);
                }
                if dist < 0x8000_0000 || dist >= 0xffff_ffff_8000_0000 {
                    proof {
                        lemma_low_word(dist, signed64(dist as int));
                    }
                    put_le32(&mut self.space.image, at, dist as u32);
                    Ok(())
                } else {
                    proof {
                        lemma_signed_cast(dist);
                    }
                    Err(
                        LoadError::Rel32Range {
                            name: r.target.clone(),
                            rel: dist as i64,
                            target,
                            site: field,
                        },
                    )
                }
            },
            RelocKind::Abs64 => {
                proof {
                    lemma_le64_mod(target + r.addend);
                    lemma_le64_mod(goal as int);
                }
                put_le64(&mut self.space.image, at, goal);
                Ok(())
            },
            _ => Err(LoadError::ForeignKind { kind: r.kind }),
        }
    }

    /// What finalizing does: all relocations are applied, up to the first that cannot be. Nothing
    /// happens once the loader is finalized.
    pub open spec fn finalizing(
        before: NativeJit,
        after: NativeJit,
        r: Result<FinalizeStep, LoadError>,
    ) -> bool {
        &&& after == (NativeJit {
            space: (CodeSpace { image: after.space.image, ..before.space }),
            ..before
        })
        &&& if before.finalized {
            r == Ok::<FinalizeStep, LoadError>(FinalizeStep::Done) && after.space == before.space
        } else {
            let work = jobs(before.space.placed@);
            let (img, err) = relocated(before.space, work, work.len() as int);
            &&& after.space.image@ == img
            &&& match err {
                None => r == Ok::<FinalizeStep, LoadError>(FinalizeStep::Protect),
                Some(e) => r == Err::<FinalizeStep, LoadError>(e),
            }
        }
    }

    /// Applies all relocations, and asks for the region to be made executable. Does nothing once
    /// the loader is finalized.
    pub fn finalize(&mut self) -> (r: Result<FinalizeStep, LoadError>)
        requires
            old(self).wf(),
        ensures
            final(self).wf(),
            NativeJit::finalizing(*old(self), *final(self), r),
    {
        if self.finalized {
            return Ok(FinalizeStep::Done);
        }
        // Collect first, then patch.
        let patches: Vec<(u64, Reloc)> = self.space.queued();
        let ghost work = jobs(self.space.placed@);
        let mut i: usize = 0;
        while i < patches.len()
            invariant
                i <= patches@.len(),
                patches@ == work,
                work == jobs(old(self).space.placed@),
                forall|k: int|
                    0 <= k < work.len() ==> field_inside(
                        #[trigger] work[k],
                        self.space.base,
                        self.space.used,
                    ),
                self.wf(),
                !old(self).finalized,
                *self == (NativeJit {
                    space: (CodeSpace { image: self.space.image, ..old(self).space }),
                    ..*old(self)
                }),
                relocated(old(self).space, work, i as int) == (
                    self.space.image@,
                    None::<LoadError>,
                ),
            decreases patches@.len() - i,
        {
            let (base, r) = (&patches[i].0, &patches[i].1);
            assert(work[i as int] == (*base, *r));
            match self.space.resolve(r.target.as_str()) {
                Some(target) => {
                    let done = self.apply_reloc(*base, r, target);
                    if let Err(e) = done {
                        proof {
                            lemma_stopped(old(self).space, work, i + 1, work.len() as int);
                        }
                        return Err(e);
                    }
                },
                None => {
                    proof {
                        lemma_stopped(old(self).space, work, i + 1, work.len() as int);
                    }
                    return Err(LoadError::Unresolved { target: r.target.clone() });
                },
            }
            i += 1;
        }
        Ok(FinalizeStep::Protect)
    }

    /// Takes note of whether the region was made executable.
    pub fn protected(&mut self, ok: bool, last_error: u32) -> (r: Result<(), LoadError>)
        ensures
            *final(self) == (NativeJit { finalized: old(self).finalized || ok, ..*old(self) }),
            r == if ok {
                Ok::<(), LoadError>(())
            } else {
                Err(LoadError::NotProtected { last_error })
            },
    {
        if !ok {
            return Err(LoadError::NotProtected { last_error });
        }
        self.finalized = true;
        Ok(())
    }

    /// Address of a defined symbol.
    pub fn lookup(&self, name: &str) -> (r: Option<u64>)
        requires
            self.wf(),
        ensures
            r == if self.space.symbols@.dom().contains(name@) {
                Some(self.space.symbols@[name@])
            } else {
                None
            },
    {
        match self.space.symbols.get(name) {
            Some(a) => Some(*a),
            None => None,
        }
    }

    /// Whether a symbol is defined.
    pub fn has_symbol(&self, name: &str) -> (b: bool)
        requires
            self.wf(),
        ensures
            b == self.space.symbols@.dom().contains(name@),
    {
        self.space.symbols.contains_key(name)
    }
}

/// The fields of two jobs do not overlap.
pub open spec fn apart(a: (u64, Reloc), b: (u64, Reloc)) -> bool {
    field_of(a) + field_width(a.1.kind) <= field_of(b) || field_of(b) + field_width(b.1.kind)
        <= field_of(a)
}

/// Every field lies in the image, and no two overlap.
pub open spec fn tidy(c: CodeSpace, work: Seq<(u64, Reloc)>) -> bool {
    &&& forall|k: int|
        0 <= k < work.len() ==> c.base <= field_of(#[trigger] work[k]) && field_of(work[k])
            + field_width(work[k].1.kind) <= c.base + c.image@.len()
    &&& forall|i: int, j: int|
        0 <= i < j < work.len() ==> apart(#[trigger] work[i], #[trigger] work[j])
}

/// The bytes of the image that the field of `job` takes.
pub open spec fn field_bytes(c: CodeSpace, img: Seq<u8>, job: (u64, Reloc)) -> Seq<u8> {
    img.subrange(field_of(job) - c.base, field_of(job) - c.base + field_width(job.1.kind))
}

proof fn lemma_job_bytes(c: CodeSpace, job: (u64, Reloc))
    ensures
        job_bytes(c.symbols@, c.externs@, job) matches Ok(b) ==> b.len() == field_width(job.1.kind),
{
    match resolution(c.symbols@, c.externs@, job.1.target@) {
        Some(t) => {
            lemma_le_len(signed64(t + job.1.addend - (field_of(job) as u64 + 4)));
            lemma_le_len(t + job.1.addend);
        },
        None => {},
    }
}

proof fn lemma_relocated(c: CodeSpace, work: Seq<(u64, Reloc)>, n: int)
    requires
        tidy(c, work),
        0 <= n <= work.len(),
        relocated(c, work, n).1 is None,
    ensures
        relocated(c, work, n).0.len() == c.image@.len(),
        forall|k: int|
            0 <= k < n ==> job_bytes(c.symbols@, c.externs@, #[trigger] work[k]) == Ok::<
                Seq<u8>,
                LoadError,
            >(field_bytes(c, relocated(c, work, n).0, work[k])),
        forall|x: int|
            0 <= x < c.image@.len() && (forall|k: int|
                0 <= k < n ==> !(field_of(#[trigger] work[k]) <= c.base + x < field_of(work[k])
                    + field_width(work[k].1.kind))) ==> #[trigger] relocated(c, work, n).0[x]
                == c.image@[x],
    decreases n,
{
    if n > 0 {
        lemma_relocated(c, work, n - 1);
        let before = relocated(c, work, n - 1).0;
        let after = relocated(c, work, n).0;
        let last = work[n - 1];
        lemma_job_bytes(c, last);
        let bytes = job_bytes(c.symbols@, c.externs@, last)->Ok_0;
        assert(field_bytes(c, after, last) =~= bytes);
        assert forall|k: int| 0 <= k < n implies job_bytes(c.symbols@, c.externs@, #[trigger] work[k])
            == Ok::<Seq<u8>, LoadError>(field_bytes(c, after, work[k])) by {
            if k < n - 1 {
                assert(apart(work[k], work[n - 1]));
                assert(field_bytes(c, after, work[k]) =~= field_bytes(c, before, work[k]));
            }
        }
        assert forall|x: int|
            0 <= x < c.image@.len() && (forall|k: int|
                0 <= k < n ==> !(field_of(#[trigger] work[k]) <= c.base + x < field_of(work[k])
                    + field_width(work[k].1.kind))) implies #[trigger] after[x] == c.image@[x] by {
            assert(!(field_of(work[n - 1]) <= c.base + x < field_of(work[n - 1]) + field_width(
                work[n - 1].1.kind,
            )));
            assert(after[x] == before[x]);
        }
    }
}

/// After all relocations each field holds what its relocation asks for, and no other byte has
/// changed. The fields must not overlap.
pub proof fn relocation_fills_the_fields(c: CodeSpace, work: Seq<(u64, Reloc)>)
    requires
        tidy(c, work),
        relocated(c, work, work.len() as int).1 is None,
    ensures
        forall|k: int|
            0 <= k < work.len() ==> job_bytes(c.symbols@, c.externs@, #[trigger] work[k]) == Ok::<
                Seq<u8>,
                LoadError,
            >(field_bytes(c, relocated(c, work, work.len() as int).0, work[k])),
        forall|x: int|
            0 <= x < c.image@.len() && (forall|k: int|
                0 <= k < work.len() ==> !(field_of(#[trigger] work[k]) <= c.base + x < field_of(
                    work[k],
                ) + field_width(work[k].1.kind))) ==> #[trigger] relocated(
                c,
                work,
                work.len() as int,
            ).0[x] == c.image@[x],
{
    lemma_relocated(c, work, work.len() as int);
}

/// Branches and RIP-relative operands are relocated alike.
pub proof fn rel32_kinds_agree(field: u64, a: Reloc, b: Reloc, target: u64)
    requires
        a.kind == RelocKind::BranchRel32,
        b == (Reloc { kind: RelocKind::RipRel32, ..a }),
    ensures
        x86_field(field, a, target) == x86_field(field, b, target),
{
}

/// A branch lands: the processor adds the field to the address behind it, and arrives at the
/// target.
pub proof fn branch_lands(field: u64, r: Reloc, target: u64)
    requires
        r.kind == RelocKind::BranchRel32 || r.kind == RelocKind::RipRel32,
        x86_field(field, r, target) is Ok,
    ensures
        (field + 4 + signed32(x86_field(field, r, target)->Ok_0)) % two64() == (target + r.addend)
            % two64(),
{
    let x = target + r.addend - (field + 4);
    lemma_signed32(signed64(x));
    let q = x / two64();
    let rel = signed64(x);
    let k = if rel < 0 {
        q + 1
    } else {
        q
    };
    assert(target + r.addend == two64() * k + (field + 4 + rel));
    vstd::arithmetic::div_mod::lemma_mod_multiples_vanish(k, field + 4 + rel, two64());
}

/// Where the processor goes from the four-byte field at `field`, which spells `word`: that far,
/// as a signed number, from the address behind it.
pub open spec fn rel32_goal(field: int, word: int) -> int {
    (field + 4 + if word < 0x8000_0000 {
        word
    } else {
        word - 0x1_0000_0000
    }) % 0x1_0000_0000_0000_0000
}

/// In the image `img`, the field of the relocation `r` of the module at `base` leads to where the
/// relocation wants to go: a rel32 field by its distance, and a 64-bit cell by its contents.
pub open spec fn x86_reaches(c: CodeSpace, img: Seq<u8>, base: u64, r: Reloc) -> bool {
    let field = base + r.at;
    match r.kind {
        RelocKind::BranchRel32 | RelocKind::RipRel32 => wants(
            c,
            r,
            rel32_goal(field, spelled32(img, field - c.base)),
        ),
        RelocKind::Abs64 => wants(c, r, spelled64(img, field - c.base)),
        _ => false,
    }
}

/// There is a value for the field of the relocation `r` of the module at `base` that leads to
/// where the relocation wants to go.
pub open spec fn x86_reachable(c: CodeSpace, base: u64, r: Reloc) -> bool {
    match r.kind {
        RelocKind::BranchRel32 | RelocKind::RipRel32 => exists|word: u32|
            wants(c, r, #[trigger] rel32_goal(base + r.at, word as int)),
        RelocKind::Abs64 => exists|goal: u64| #[trigger] wants(c, r, goal as int),
        _ => false,
    }
}

/// What a job writes leads to where its relocation wants to go.
proof fn lemma_job_reaches(c: CodeSpace, img: Seq<u8>, job: (u64, Reloc))
    requires
        c.base <= field_of(job),
        field_of(job) + field_width(job.1.kind) <= c.base + img.len(),
        c.base + img.len() <= u64::MAX,
        job_bytes(c.symbols@, c.externs@, job) == Ok::<Seq<u8>, LoadError>(
            field_bytes(c, img, job),
        ),
    ensures
        x86_reaches(c, img, job.0, job.1),
{
    let r = job.1;
    let at = field_of(job) - c.base;
    let target = resolution(c.symbols@, c.externs@, r.target@).unwrap();
    let bytes = field_bytes(c, img, job);
    match r.kind {
        RelocKind::BranchRel32 | RelocKind::RipRel32 => {
            branch_lands(field_of(job) as u64, r, target);
            assert(bytes[0] == img[at] && bytes[1] == img[at + 1] && bytes[2] == img[at + 2]
                && bytes[3] == img[at + 3]);
            assert(from_le32(bytes) == spelled32(img, at));
        },
        RelocKind::Abs64 => {
            lemma_from_le64(target + r.addend);
            assert(bytes[0] == img[at] && bytes[1] == img[at + 1] && bytes[2] == img[at + 2]
                && bytes[3] == img[at + 3]);
            let high = bytes.skip(4);
            assert(high[0] == img[at + 4] && high[1] == img[at + 5] && high[2] == img[at + 6]
                && high[3] == img[at + 7]);
            assert(spelled64(img, at) == from_le32(bytes) + 0x1_0000_0000 * from_le32(high));
        },
        _ => {},
    }
}

/// The work of a loader lies in its region, and apart where its fields do.
proof fn lemma_tidy(c: CodeSpace)
    requires
        c.wf(),
        fields_lie_apart(c.placed@),
    ensures
        tidy(c, jobs(c.placed@)),
{
    let placed = c.placed@;
    let work = jobs(placed);
    assert forall|k: int| 0 <= k < work.len() implies c.base <= field_of(#[trigger] work[k])
        && field_of(work[k]) + field_width(work[k].1.kind) <= c.base + c.image@.len() by {
        let (p, i) = every_job_is_a_relocation(placed, k);
        let r = c.placed@[p].relocs@[i];
    }
    assert forall|a: int, b: int| 0 <= a < b < work.len() implies apart(
        #[trigger] work[a],
        #[trigger] work[b],
    ) by {
        let (p, i) = every_job_is_a_relocation(placed, a);
        let (q, j) = every_job_is_a_relocation(placed, b);
        assert(is_reloc(placed, p, i) && is_reloc(placed, q, j));
    }
}

/// Once the loader is finalized, every relocation of every module that was placed leads to its
/// target, and no other byte of the region has changed. No two relocations may patch the same
/// byte.
pub proof fn finalized_code_reaches_its_targets(
    before: NativeJit,
    after: NativeJit,
    r: Result<FinalizeStep, LoadError>,
)
    requires
        before.wf(),
        !before.finalized,
        NativeJit::finalizing(before, after, r),
        r is Ok,
        fields_lie_apart(before.space.placed@),
    ensures
        forall|p: int, i: int| #[trigger]
            is_reloc(before.space.placed@, p, i) ==> x86_reaches(
                before.space,
                after.space.image@,
                before.space.placed@[p].base,
                before.space.placed@[p].relocs@[i],
            ),
        after.space.image@.len() == before.space.image@.len(),
        forall|x: int|
            0 <= x < before.space.image@.len() && !is_patched(
                before.space.placed@,
                before.space.base + x,
            ) ==> #[trigger] after.space.image@[x] == before.space.image@[x],
{
    let c = before.space;
    let placed = c.placed@;
    let work = jobs(placed);
    let img = after.space.image@;
    lemma_tidy(c);
    lemma_relocated(c, work, work.len() as int);
    assert forall|p: int, i: int| #[trigger] is_reloc(placed, p, i) implies x86_reaches(
        c,
        img,
        placed[p].base,
        placed[p].relocs@[i],
    ) by {
        every_relocation_is_queued(placed, p, i);
        let k = first_job(placed, p) + i;
        assert(0 <= k < work.len() && c.base <= field_of(work[k]));
        lemma_job_reaches(c, img, work[k]);
    }
    assert forall|x: int|
        0 <= x < c.image@.len() && !is_patched(placed, c.base + x) implies #[trigger] img[x]
        == c.image@[x] by {
        assert forall|k: int| 0 <= k < work.len() implies !(field_of(#[trigger] work[k]) <= c.base
            + x < field_of(work[k]) + field_width(work[k].1.kind)) by {
            let (p, i) = every_job_is_a_relocation(placed, k);
            assert(is_reloc(placed, p, i));
        }
    }
}

/// Jobs go through where each of them does.
proof fn lemma_all_go_through(c: CodeSpace, work: Seq<(u64, Reloc)>, n: int)
    requires
        0 <= n <= work.len(),
    ensures
        relocated(c, work, n).1 is None <==> forall|k: int|
            0 <= k < n ==> job_bytes(c.symbols@, c.externs@, #[trigger] work[k]) is Ok,
        relocated(c, work, n).1 matches Some(e) ==> exists|k: int|
            stops(c, work, n, k, e),
    decreases n,
{
    if n > 0 {
        lemma_all_go_through(c, work, n - 1);
        match relocated(c, work, n - 1).1 {
            None => {
                if let Err(e) = job_bytes(c.symbols@, c.externs@, work[n - 1]) {
                    assert(stops(c, work, n, n - 1, e));
                }
            },
            Some(e) => {
                let m = n - 1;
                let k = choose|k: int| stops(c, work, m, k, e);
                assert(stops(c, work, n, k, e));
            },
        }
    }
}

/// The `k`th of the first `n` jobs is the first that cannot be done, because of `e`.
spec fn stops(c: CodeSpace, work: Seq<(u64, Reloc)>, n: int, k: int, e: LoadError) -> bool {
    &&& 0 <= k < n
    &&& job_bytes(c.symbols@, c.externs@, work[k]) == Err::<Seq<u8>, LoadError>(e)
    &&& forall|j: int|
        0 <= j < k ==> job_bytes(c.symbols@, c.externs@, #[trigger] work[j]) is Ok
}

/// `e` says why the relocation `r` of the module at `base` cannot be satisfied: its target is
/// neither defined nor bound, or lies too far away, or its kind is one of another machine.
pub open spec fn x86_blames(c: CodeSpace, base: u64, r: Reloc, e: LoadError) -> bool {
    match e {
        LoadError::Unresolved { target } => target == r.target && !c.symbols@.dom().contains(
            r.target@,
        ) && !c.externs@.dom().contains(r.target@),
        LoadError::Rel32Range { name, rel, target, site } => {
            &&& r.kind == RelocKind::BranchRel32 || r.kind == RelocKind::RipRel32
            &&& name == r.target
            &&& site == base + r.at
            &&& wants(c, r, (target + r.addend) % 0x1_0000_0000_0000_0000)
            &&& wants(c, r, (site + 4 + rel) % 0x1_0000_0000_0000_0000)
            &&& !(-0x8000_0000 <= rel < 0x8000_0000)
        },
        LoadError::ForeignKind { kind } => kind == r.kind && (kind == RelocKind::Branch26 || kind
            == RelocKind::AdrpPage21 || kind == RelocKind::AddPageOff12),
        _ => false,
    }
}

proof fn lemma_blames(c: CodeSpace, job: (u64, Reloc), e: LoadError)
    requires
        field_of(job) + 4 <= u64::MAX,
        job_bytes(c.symbols@, c.externs@, job) == Err::<Seq<u8>, LoadError>(e),
    ensures
        x86_blames(c, job.0, job.1, e),
{
    let r = job.1;
    match resolution(c.symbols@, c.externs@, r.target@) {
        None => {},
        Some(target) => {
            let x = target + r.addend - (field_of(job) + 4);
            let k = (signed64(x) - x) / two64();
            assert(signed64(x) == x + two64() * k) by {
                vstd::arithmetic::div_mod::lemma_fundamental_div_mod(x, two64());
            }
            vstd::arithmetic::div_mod::lemma_mod_multiples_vanish(k, target + r.addend, two64());
        },
    }
}

proof fn lemma_job_reachable(c: CodeSpace, job: (u64, Reloc))
    requires
        field_of(job) + 4 <= u64::MAX,
    ensures
        job_bytes(c.symbols@, c.externs@, job) is Ok <==> x86_reachable(c, job.0, job.1),
{
    let r = job.1;
    let field = field_of(job) as u64;
    match resolution(c.symbols@, c.externs@, r.target@) {
        None => {},
        Some(target) => {
            let goal = (target + r.addend) % two64();
            assert(wants(c, r, goal));
            match r.kind {
                RelocKind::BranchRel32 | RelocKind::RipRel32 => {
                    let rel = signed64(target + r.addend - (field + 4));
                    if -0x8000_0000 <= rel < 0x8000_0000 {
                        branch_lands(field, r, target);
                        lemma_signed32(rel);
                        let word: u32 = from_le32(le32(rel)) as u32;
                        assert(from_le32(le32(rel)) == word) by {
                            crate::bytes::lemma_from_le32(rel);
                        }
                        assert(rel32_goal(field as int, word as int) == goal);
                    }
                    assert forall|word: u32|
                        wants(c, r, #[trigger] rel32_goal(field as int, word as int)) implies
                        -0x8000_0000 <= rel < 0x8000_0000 by {
                        let d = if word < 0x8000_0000 {
                            word as int
                        } else {
                            word - 0x1_0000_0000
                        };
                        lemma_only_distance(target + r.addend, field + 4, d);
                    }
                },
                RelocKind::Abs64 => {
                    assert(wants(c, r, (goal as u64) as int));
                },
                _ => {},
            }
        },
    }
}

/// A distance that leads from `from` to `to`, and is shorter than half the address space, is the
/// distance.
proof fn lemma_only_distance(to: int, from: int, d: int)
    requires
        -0x8000_0000 <= d < 0x8000_0000,
        (from + d) % two64() == to % two64(),
    ensures
        signed64(to - from) == d,
{
    vstd::arithmetic::div_mod::lemma_fundamental_div_mod(from + d, two64());
    vstd::arithmetic::div_mod::lemma_fundamental_div_mod(to, two64());
    let k = to / two64() - (from + d) / two64();
    assert(to - from == two64() * k + d);
    vstd::arithmetic::div_mod::lemma_mod_multiples_vanish(k, d, two64());
}

/// Finalizing succeeds exactly where every relocation of every placed module can be satisfied: its
/// target is defined or bound, its kind is one of this machine, and the target lies in reach.
/// Otherwise the error says what is wrong with one of them.
pub proof fn finalize_refuses_only_what_is_out_of_reach(
    before: NativeJit,
    after: NativeJit,
    r: Result<FinalizeStep, LoadError>,
)
    requires
        before.wf(),
        !before.finalized,
        NativeJit::finalizing(before, after, r),
    ensures
        r is Ok <==> forall|p: int, i: int| #[trigger]
            is_reloc(before.space.placed@, p, i) ==> x86_reachable(
                before.space,
                before.space.placed@[p].base,
                before.space.placed@[p].relocs@[i],
            ),
        r matches Err(e) ==> exists|p: int, i: int| #[trigger]
            is_reloc(before.space.placed@, p, i) && x86_blames(
                before.space,
                before.space.placed@[p].base,
                before.space.placed@[p].relocs@[i],
                e,
            ),
{
    let c = before.space;
    let placed = c.placed@;
    let work = jobs(placed);
    lemma_all_go_through(c, work, work.len() as int);
    if r is Ok {
        assert forall|p: int, i: int| #[trigger] is_reloc(placed, p, i) implies x86_reachable(
            c,
            placed[p].base,
            placed[p].relocs@[i],
        ) by {
            every_relocation_is_queued(placed, p, i);
            let k = first_job(placed, p) + i;
            assert(job_bytes(c.symbols@, c.externs@, work[k]) is Ok);
            let f = c.placed@[p].relocs@[i];
            lemma_job_reachable(c, work[k]);
        }
    } else {
        let n = work.len() as int;
        let k = choose|k: int| stops(c, work, n, k, r->Err_0);
        let (p, i) = every_job_is_a_relocation(placed, k);
        let f = c.placed@[p].relocs@[i];
        lemma_job_reachable(c, work[k]);
        lemma_blames(c, work[k], r->Err_0);
        assert(is_reloc(placed, p, i));
    }
}

/// Once an error has stopped the jobs, nothing more happens.
proof fn lemma_stopped(c: CodeSpace, work: Seq<(u64, Reloc)>, n: int, m: int)
    requires
        0 <= n <= m,
        relocated(c, work, n).1 is Some,
    ensures
        relocated(c, work, m) == relocated(c, work, n),
    decreases m,
{
    if n < m {
        lemma_stopped(c, work, n, m - 1);
    }
}

proof fn lemma_dist(target: u64, addend: i64, field: u64, goal: u64, dist: u64)
    requires
        goal == (target + addend) % two64(),
        dist == (goal - (field + 4)) % two64(),
        field + 4 <= u64::MAX,
    ensures
        signed64(target + addend - (field + 4)) == signed64(dist as int),
{
    let x = target + addend;
    let f = field + 4;
    let q = x / two64();
    vstd::arithmetic::div_mod::lemma_mod_multiples_vanish(q, goal - f, two64());
    assert(x - f == two64() * q + (goal - f));
}

proof fn lemma_low_word(dist: u64, rel: int)
    requires
        rel == signed64(dist as int),
    ensures
        le32((dist as u32) as int) == le32(rel),
{
    assert(dist as u32 == dist % 0x1_0000_0000) by (bit_vector);
    lemma_le32_mod(rel);
    lemma_le32_mod(dist as int);
    lemma_le32_mod((dist as u32) as int);
}

proof fn lemma_signed_cast(dist: u64)
    ensures
        dist as i64 == signed64(dist as int),
{
    assert(dist < 0x8000_0000_0000_0000 ==> dist as i64 == dist) by (bit_vector);
    assert(dist >= 0x8000_0000_0000_0000 ==> dist as i64 == dist - 0x1_0000_0000_0000_0000)
        by (bit_vector);
}

} // verus!
