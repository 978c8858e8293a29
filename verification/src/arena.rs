//! A near (rel32-reachable) code and data arena that the host allocates close to the kernel, so
//! that words emitted at run time are reachable by a plain `call rel32`. The host owns the
//! backing memory: the arena hands out addresses in it, and it must outlive every loader that
//! allocates from it.

use vstd::prelude::*;

use crate::align::{is_pow2, lemma_beyond, lemma_clear_low_bits, lemma_rounded_up, rounded_up};

verus! {

pub struct CodeArena {
    base: usize,
    size: usize,
    offset: usize,
    /// Bytes reserved immediately before each code section, where the host can keep metadata of
    /// the function.
    code_header: usize,
}

/// The address at which a section starts when `at` is the first free one: behind the reserved
/// bytes, with the bits below the alignment clear. An alignment of zero counts as one. None where
/// the sum goes beyond the address space.
pub open spec fn section_start(at: int, align: usize, reserve: usize) -> Option<usize> {
    let a = if align == 0 {
        1
    } else {
        align as int
    };
    let sum = at + reserve + a - 1;
    if sum <= usize::MAX {
        Some((sum as usize) & !((a - 1) as usize))
    } else {
        None
    }
}

/// A section starts behind the reserved bytes, and they behind what was handed out before; the
/// gap is smaller than the alignment.
pub proof fn section_starts_behind(at: usize, align: usize, reserve: usize)
    ensures
        section_start(at as int, align, reserve) matches Some(start) ==> {
            &&& at + reserve <= start
            &&& align > 0 ==> start < at + reserve + align
            &&& align == 0 ==> start == at + reserve
        },
{
    let a: usize = if align == 0 {
        1
    } else {
        align
    };
    if section_start(at as int, align, reserve) is Some {
        let x = (at + reserve + a - 1) as usize;
        let m = (a - 1) as usize;
        assert(x - (x & !m) <= m && x & !m <= x) by (bit_vector);
    }
}

/// Where the alignment is a power of two, the section starts at the next multiple of it; there is
/// none only where that multiple lies beyond the address space.
pub proof fn section_is_aligned(at: usize, align: usize, reserve: usize)
    requires
        is_pow2(align as int),
    ensures
        match section_start(at as int, align, reserve) {
            Some(start) => start == rounded_up(at + reserve, align as int) && start % align == 0,
            None => rounded_up(at + reserve, align as int) > usize::MAX,
        },
{
    lemma_clear_low_bits(0, align);
    lemma_rounded_up(at + reserve, align as int);
    if section_start(at as int, align, reserve) is Some {
        lemma_clear_low_bits((at + reserve + align - 1) as usize, align);
    } else {
        lemma_beyond(at + reserve, align);
    }
}

impl CodeArena {
    pub closed spec fn base(&self) -> usize {
        self.base
    }

    pub closed spec fn size(&self) -> usize {
        self.size
    }

    /// Bytes handed out so far.
    pub closed spec fn offset(&self) -> usize {
        self.offset
    }

    pub closed spec fn header(&self) -> usize {
        self.code_header
    }

    /// What was handed out lies inside the region.
    pub open spec fn wf(&self) -> bool {
        &&& self.base() + self.size() <= usize::MAX
        &&& self.offset() <= self.size()
    }

    /// `[base, base + size)` is a region of memory that the caller keeps alive.
    pub fn new(base: usize, size: usize) -> (a: CodeArena)
        requires
            base + size <= usize::MAX,
        ensures
            a.wf(),
            a.base() == base,
            a.size() == size,
            a.offset() == 0,
            a.header() == 0,
    {
        CodeArena { base, size, offset: 0, code_header: 0 }
    }

    /// Like [`new`](CodeArena::new), but with `code_header` bytes reserved before every code
    /// section.
    pub fn with_code_header(base: usize, size: usize, code_header: usize) -> (a: CodeArena)
        requires
            base + size <= usize::MAX,
        ensures
            a.wf(),
            a.base() == base,
            a.size() == size,
            a.offset() == 0,
            a.header() == code_header,
    {
        CodeArena { base, size, offset: 0, code_header }
    }

    /// Bytes handed out so far.
    pub fn used(&self) -> (n: usize)
        ensures
            n == self.offset(),
    {
        self.offset
    }

    /// Bytes that a code section reserves before itself.
    pub fn code_header(&self) -> (n: usize)
        ensures
            n == self.header(),
    {
        self.code_header
    }

    /// What handing out a section does: where it fits, it is handed out, and otherwise nothing
    /// changes.
    pub open spec fn bumped(
        before: CodeArena,
        after: CodeArena,
        size: usize,
        align: usize,
        reserve: usize,
        r: Option<usize>,
    ) -> bool {
        &&& after.base() == before.base()
        &&& after.size() == before.size()
        &&& after.header() == before.header()
        &&& match section_start(before.base() + before.offset(), align, reserve) {
            Some(start) if start + size <= before.base() + before.size() => r == Some(start)
                && before.base() + after.offset() == start + size,
            _ => r is None && after.offset() == before.offset(),
        }
    }

    /// Hands out `size` bytes (`align`-aligned) without a reservation: the caller supplies its
    /// own leading metadata. `None` if the arena is exhausted.
    pub fn allocate(&mut self, size: usize, align: usize) -> (r: Option<usize>)
        requires
            old(self).wf(),
        ensures
            final(self).wf(),
            CodeArena::bumped(*old(self), *final(self), size, align, 0, r),
            is_pow2(align as int) ==> (r matches Some(p) ==> p % align == 0),
            r is None ==> *final(self) == *old(self),
    {
        self.bump(size, align, 0)
    }

    /// Hands out `size` bytes at an address with the bits below `align` clear, with `reserve`
    /// free bytes before it. `None` if the arena is exhausted, which an address beyond the
    /// machine's numbers counts as.
    pub fn bump(&mut self, size: usize, align: usize, reserve: usize) -> (r: Option<usize>)
        requires
            old(self).wf(),
        ensures
            final(self).wf(),
            CodeArena::bumped(*old(self), *final(self), size, align, reserve, r),
            is_pow2(align as int) ==> (r matches Some(p) ==> p % align == 0),
            r is None ==> *final(self) == *old(self),
    {
        let at: usize = self.base + self.offset;
        proof {
            section_starts_behind(at, align, reserve);
            if is_pow2(align as int) {
                section_is_aligned(at, align, reserve);
            }
        }
        let align: usize = if align < 1 {
            1
        } else {
            align
        };
        // Reserve first, then align: `[start - reserve, start)` is free space past the prior
        // section.
        let free: usize = match at.checked_add(reserve) {
            Some(n) => n,
            None => {
                return None;
            },
        };
        let sum: usize = match free.checked_add(align - 1) {
            Some(n) => n,
            None => {
                return None;
            },
        };
        let start: usize = sum & !(align - 1);
        match start.checked_add(size) {
            Some(end) => {
                if end <= self.base + self.size {
                    self.offset = end - self.base;
                    Some(start)
                } else {
                    None
                }
            },
            None => None,
        }
    }
}

/// An arena that is asked for sections in turn, each with its size, its alignment and the bytes
/// to reserve before it: the states that it goes through, and what it answers.
pub open spec fn history(
    states: Seq<CodeArena>,
    asked: Seq<(usize, usize, usize)>,
    got: Seq<Option<usize>>,
) -> bool {
    &&& states.len() == asked.len() + 1
    &&& got.len() == asked.len()
    &&& states[0].wf()
    &&& forall|k: int|
        0 <= k < asked.len() ==> CodeArena::bumped(
            states[k],
            states[k + 1],
            asked[k].0,
            asked[k].1,
            asked[k].2,
            #[trigger] got[k],
        )
}

proof fn lemma_step(
    a: CodeArena,
    b: CodeArena,
    size: usize,
    align: usize,
    reserve: usize,
    r: Option<usize>,
)
    requires
        a.wf(),
        CodeArena::bumped(a, b, size, align, reserve, r),
    ensures
        b.wf(),
        a.offset() <= b.offset(),
        r matches Some(p) ==> a.base() + a.offset() + reserve <= p && p + size == b.base()
            + b.offset(),
{
    section_starts_behind((a.base() + a.offset()) as usize, align, reserve);
}

/// From the `i`th state on the arena keeps its region, and what it has handed out only grows.
proof fn lemma_later(
    states: Seq<CodeArena>,
    asked: Seq<(usize, usize, usize)>,
    got: Seq<Option<usize>>,
    i: int,
    j: int,
)
    requires
        history(states, asked, got),
        0 <= i <= j <= asked.len(),
    ensures
        states[i].wf(),
        states[j].wf(),
        states[j].base() == states[0].base(),
        states[j].size() == states[0].size(),
        states[i].offset() <= states[j].offset(),
    decreases j,
{
    if j > 0 {
        lemma_later(
            states,
            asked,
            got,
            if i < j {
                i
            } else {
                0
            },
            j - 1,
        );
        let (size, align, reserve) = asked[j - 1];
        lemma_step(states[j - 1], states[j], size, align, reserve, got[j - 1]);
    }
}

/// However often an arena is asked, all sections lie inside its region, behind each other and
/// apart, and so do the bytes reserved before them. What it has handed out never shrinks, and
/// never outgrows the region.
pub proof fn sections_lie_apart(
    states: Seq<CodeArena>,
    asked: Seq<(usize, usize, usize)>,
    got: Seq<Option<usize>>,
)
    requires
        history(states, asked, got),
    ensures
        forall|i: int, j: int|
            0 <= i <= j < states.len() ==> (#[trigger] states[i]).offset() <= (#[trigger] states[j])
                .offset() <= states[0].size(),
        forall|i: int|
            0 <= i < got.len() ==> (#[trigger] got[i] matches Some(p) ==> states[0].base()
                + asked[i].2 <= p && p + asked[i].0 <= states[0].base() + states[0].size()),
        forall|i: int, j: int|
            0 <= i < j < got.len() ==> (#[trigger] got[i] matches Some(p) ==> (#[trigger] got[
                j
            ] matches Some(q) ==> p + asked[i].0 <= q - asked[j].2)),
{
    assert forall|i: int, j: int| 0 <= i <= j < states.len() implies (#[trigger] states[i]).offset()
        <= (#[trigger] states[j]).offset() <= states[0].size() by {
        lemma_later(states, asked, got, i, j);
    }
    assert forall|i: int| 0 <= i < got.len() implies (#[trigger] got[i] matches Some(p)
        ==> states[0].base() + asked[i].2 <= p && p + asked[i].0 <= states[0].base()
        + states[0].size()) by {
        lemma_later(states, asked, got, i, i + 1);
        lemma_later(states, asked, got, 0, i);
        lemma_step(states[i], states[i + 1], asked[i].0, asked[i].1, asked[i].2, got[i]);
    }
    assert forall|i: int, j: int| 0 <= i < j < got.len() implies (#[trigger] got[i] matches Some(p)
        ==> (#[trigger] got[j] matches Some(q) ==> p + asked[i].0 <= q - asked[j].2)) by {
        lemma_later(states, asked, got, 0, i);
        lemma_later(states, asked, got, i + 1, j);
        lemma_step(states[i], states[i + 1], asked[i].0, asked[i].1, asked[i].2, got[i]);
        lemma_step(states[j], states[j + 1], asked[j].0, asked[j].1, asked[j].2, got[j]);
    }
}

/// `p` is where a section could start: it is aligned, behind what was handed out and the bytes to
/// reserve, and the section ends inside the region.
pub open spec fn could_start(a: CodeArena, size: usize, align: usize, reserve: usize, p: int) -> bool {
    &&& a.base() + a.offset() + reserve <= p
    &&& p % (align as int) == 0
    &&& p + size <= a.base() + a.size()
}

/// A section is handed out wherever there is room for it, at the first place where it could start.
/// The alignment is a power of two.
pub proof fn section_that_fits_is_handed_out(
    before: CodeArena,
    after: CodeArena,
    size: usize,
    align: usize,
    reserve: usize,
    r: Option<usize>,
    p: int,
)
    requires
        before.wf(),
        is_pow2(align as int),
        CodeArena::bumped(before, after, size, align, reserve, r),
    ensures
        could_start(before, size, align, reserve, p) ==> (r matches Some(q) && q <= p),
        r matches Some(q) ==> could_start(before, size, align, reserve, q as int),
        r matches Some(q) ==> after.base() + after.offset() == q + size,
        r is None ==> after.offset() == before.offset(),
        after.base() == before.base() && after.size() == before.size(),
{
    let at = (before.base() + before.offset()) as usize;
    lemma_clear_low_bits(0, align);
    section_is_aligned(at, align, reserve);
    section_starts_behind(at, align, reserve);
    lemma_rounded_up(at + reserve, align as int);
    if could_start(before, size, align, reserve, p) {
        let first = rounded_up(at + reserve, align as int);
        assert(first <= p) by {
            if p < first {
                vstd::arithmetic::div_mod::lemma_fundamental_div_mod(p, align as int);
                vstd::arithmetic::div_mod::lemma_fundamental_div_mod(first, align as int);
                let (i, j) = (p / align as int, first / align as int);
                assert(p == align * i && first == align * j);
                assert(i + 1 <= j) by (nonlinear_arith)
                    requires
                        align * i < align * j,
                        align > 0,
                ;
                assert(align * i + align <= align * j) by (nonlinear_arith)
                    requires
                        i + 1 <= j,
                        align > 0,
                ;
            }
        }
    }
}

} // verus!
