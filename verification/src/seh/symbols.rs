//! The symbol table: which name an address belongs to.

use vstd::prelude::*;

verus! {

/// One registered symbol: start address plus a name. Addresses resolve by "nearest
/// predecessor": the highest `addr` that is `<= query`, printed as `name + (query - addr)`. No
/// size is needed for that.
#[derive(Clone, Debug)]
pub struct Symbol {
    pub addr: u64,
    pub name: String,
    pub source: &'static str,
}

pub struct SymbolTable {
    syms: Vec<Symbol>,
    /// The symbols may be out of order; the next lookup sorts them.
    dirty: bool,
}

/// No symbol plausibly reaches further than this from its start.
pub const MAX_EXTENT: u64 = 0x1_0000;

/// The symbols that start at `a`, in the order in which they were registered.
pub open spec fn at(syms: Seq<Symbol>, a: u64) -> Seq<Symbol> {
    syms.filter(|s: Symbol| s.addr == a)
}

/// The first `n` symbols stand in the order of their addresses.
pub open spec fn sorted_to(syms: Seq<Symbol>, n: int) -> bool {
    forall|i: int, j: int| 0 <= i <= j < n ==> syms[i].addr <= syms[j].addr
}

pub open spec fn sorted(syms: Seq<Symbol>) -> bool {
    sorted_to(syms, syms.len() as int)
}

/// `b` holds the symbols of `a`, and those of one address in the same order.
pub open spec fn same_symbols(a: Seq<Symbol>, b: Seq<Symbol>) -> bool {
    &&& a.len() == b.len()
    &&& forall|x: u64|
        #![trigger at(a, x)]
        #![trigger at(b, x)]
        at(a, x) == at(b, x)
}

/// The symbol with the highest address that is `<= query`; of several at that address, the one
/// registered last.
pub open spec fn nearest(syms: Seq<Symbol>, query: u64) -> Option<Symbol>
    decreases syms.len(),
{
    if syms.len() == 0 {
        None
    } else {
        let before = nearest(syms.drop_last(), query);
        let s = syms.last();
        if s.addr <= query && (before matches Some(b) ==> b.addr <= s.addr) {
            Some(s)
        } else {
            before
        }
    }
}

/// The lowest symbol address that is `> query`.
pub open spec fn following(syms: Seq<Symbol>, query: u64) -> Option<u64>
    decreases syms.len(),
{
    if syms.len() == 0 {
        None
    } else {
        let before = following(syms.drop_last(), query);
        let s = syms.last();
        if s.addr > query && (before matches Some(b) ==> s.addr < b) {
            Some(s.addr)
        } else {
            before
        }
    }
}

/// The nearest symbol, if `query` is not implausibly far behind its start.
pub open spec fn plausible(syms: Seq<Symbol>, query: u64) -> Option<Symbol> {
    match nearest(syms, query) {
        Some(s) => if query - s.addr < MAX_EXTENT && (following(syms, query) matches Some(n)
            ==> query < n) {
            Some(s)
        } else {
            None
        },
        None => None,
    }
}

proof fn lemma_at_push(syms: Seq<Symbol>, a: u64)
    requires
        syms.len() > 0,
    ensures
        at(syms, a) == if syms.last().addr == a {
            at(syms.drop_last(), a).push(syms.last())
        } else {
            at(syms.drop_last(), a)
        },
{
    reveal(Seq::filter);
}

proof fn lemma_at_empty(a: u64)
    ensures
        at(Seq::empty(), a) == Seq::<Symbol>::empty(),
{
    reveal(Seq::filter);
}

/// [`nearest`] is the highest predecessor: no symbol lies between it and `query`, and none of its
/// address was registered later. There is none only where all symbols lie behind `query`.
pub proof fn nearest_is_the_highest_predecessor(syms: Seq<Symbol>, query: u64)
    ensures
        match nearest(syms, query) {
            Some(s) => s.addr <= query && at(syms, s.addr).len() > 0 && at(syms, s.addr).last() == s
                && forall|a: u64| s.addr < a <= query ==> (#[trigger] at(syms, a)).len() == 0,
            None => forall|a: u64| a <= query ==> (#[trigger] at(syms, a)).len() == 0,
        },
    decreases syms.len(),
{
    if syms.len() == 0 {
        assert forall|a: u64| (#[trigger] at(syms, a)).len() == 0 by {
            assert(syms =~= Seq::empty());
            lemma_at_empty(a);
        }
    } else {
        nearest_is_the_highest_predecessor(syms.drop_last(), query);
        assert forall|a: u64|
            #[trigger] at(syms, a) == if syms.last().addr == a {
                at(syms.drop_last(), a).push(syms.last())
            } else {
                at(syms.drop_last(), a)
            } by {
            lemma_at_push(syms, a);
        }
    }
}

/// What [`following`] is, address by address.
pub proof fn lemma_following(syms: Seq<Symbol>, query: u64)
    ensures
        match following(syms, query) {
            Some(n) => n > query && at(syms, n).len() > 0 && forall|a: u64|
                query < a < n ==> (#[trigger] at(syms, a)).len() == 0,
            None => forall|a: u64| a > query ==> (#[trigger] at(syms, a)).len() == 0,
        },
    decreases syms.len(),
{
    if syms.len() == 0 {
        assert forall|a: u64| (#[trigger] at(syms, a)).len() == 0 by {
            assert(syms =~= Seq::empty());
            lemma_at_empty(a);
        }
    } else {
        lemma_following(syms.drop_last(), query);
        assert forall|a: u64|
            #[trigger] at(syms, a) == if syms.last().addr == a {
                at(syms.drop_last(), a).push(syms.last())
            } else {
                at(syms.drop_last(), a)
            } by {
            lemma_at_push(syms, a);
        }
    }
}

/// Sorting the table changes no answer: lookups depend only on the symbols of each address and
/// their order.
pub proof fn order_does_not_matter(a: Seq<Symbol>, b: Seq<Symbol>, query: u64)
    requires
        same_symbols(a, b),
    ensures
        nearest(a, query) == nearest(b, query),
        following(a, query) == following(b, query),
        plausible(a, query) == plausible(b, query),
{
    nearest_is_the_highest_predecessor(a, query);
    nearest_is_the_highest_predecessor(b, query);
    lemma_following(a, query);
    lemma_following(b, query);
}

/// Moving a symbol towards the front past symbols at other addresses keeps the order at each
/// address.
proof fn lemma_move(syms: Seq<Symbol>, from: int, to: int)
    requires
        0 <= to <= from < syms.len(),
        forall|k: int| to <= k < from ==> syms[k].addr != syms[from].addr,
    ensures
        same_symbols(syms, syms.remove(from).insert(to, syms[from])),
{
    let moved = syms.remove(from).insert(to, syms[from]);
    let head = syms.take(to);
    let mid = syms.subrange(to, from);
    let one = seq![syms[from]];
    let tail = syms.skip(from + 1);
    assert(syms =~= head + (mid + one) + tail);
    assert(moved =~= head + (one + mid) + tail);
    assert forall|x: u64| at(syms, x) == at(moved, x) by {
        let p = |s: Symbol| s.addr == x;
        Seq::filter_distributes_over_add(head + (mid + one), tail, p);
        Seq::filter_distributes_over_add(head + (one + mid), tail, p);
        Seq::filter_distributes_over_add(head, mid + one, p);
        Seq::filter_distributes_over_add(head, one + mid, p);
        Seq::filter_distributes_over_add(mid, one, p);
        Seq::filter_distributes_over_add(one, mid, p);
        if x == syms[from].addr {
            lemma_none_at(mid, x);
            assert(at(mid, x) + at(one, x) =~= at(one, x) + at(mid, x));
        } else {
            lemma_none_at(one, x);
            assert(at(mid, x) + at(one, x) =~= at(one, x) + at(mid, x));
        }
    }
}

proof fn lemma_none_at(syms: Seq<Symbol>, x: u64)
    requires
        forall|k: int| 0 <= k < syms.len() ==> syms[k].addr != x,
    ensures
        at(syms, x) == Seq::<Symbol>::empty(),
    decreases syms.len(),
{
    if syms.len() == 0 {
        assert(syms =~= Seq::empty());
        lemma_at_empty(x);
    } else {
        lemma_at_push(syms, x);
        lemma_none_at(syms.drop_last(), x);
    }
}

/// In a sorted table the nearest predecessor stands before the first symbol behind `query`.
proof fn lemma_sorted_nearest(syms: Seq<Symbol>, query: u64, idx: int)
    requires
        sorted(syms),
        0 <= idx <= syms.len(),
        forall|k: int| 0 <= k < idx ==> syms[k].addr <= query,
        forall|k: int| idx <= k < syms.len() ==> syms[k].addr > query,
    ensures
        nearest(syms, query) == if idx == 0 {
            None
        } else {
            Some(syms[idx - 1])
        },
        following(syms, query) == if idx == syms.len() {
            None
        } else {
            Some(syms[idx].addr)
        },
    decreases syms.len(),
{
    if syms.len() > 0 {
        let init = syms.drop_last();
        if idx == syms.len() {
            lemma_sorted_nearest(init, query, idx - 1);
        } else {
            lemma_sorted_nearest(init, query, idx);
        }
    }
}

/// Putting a table in order a second time changes nothing.
pub proof fn order_is_made_once(a: SymbolTable, b: SymbolTable, c: SymbolTable)
    requires
        SymbolTable::put_in_order(a, b),
        SymbolTable::put_in_order(b, c),
    ensures
        c == b,
        sorted(c@),
        same_symbols(a@, c@),
{
}

impl SymbolTable {
    /// The registered symbols, as they stand in the table.
    pub closed spec fn view(&self) -> Seq<Symbol> {
        self.syms@
    }

    /// Nothing was added since the table was last put in order.
    pub closed spec fn is_clean(&self) -> bool {
        !self.dirty
    }

    pub open spec fn wf(&self) -> bool {
        self.is_clean() ==> sorted(self@)
    }

    /// What putting the table in order does: it is clean and in order then, symbols of one address
    /// keep their order, and a clean table stays as it is.
    pub open spec fn put_in_order(before: SymbolTable, after: SymbolTable) -> bool {
        &&& after.is_clean()
        &&& sorted(after@)
        &&& same_symbols(before@, after@)
        &&& before.is_clean() ==> after == before
    }

    pub fn new() -> (t: SymbolTable)
        ensures
            t.wf(),
            t.is_clean(),
            t@ == Seq::<Symbol>::empty(),
    {
        SymbolTable { syms: Vec::new(), dirty: false }
    }

    pub fn add(&mut self, name: String, addr: u64, source: &'static str)
        ensures
            final(self).wf(),
            !final(self).is_clean(),
            final(self)@ == old(self)@.push((Symbol { addr, name, source })),
    {
        self.syms.push(Symbol { addr, name, source });
        self.dirty = true;
    }

    pub fn len(&self) -> (n: usize)
        ensures
            n == self@.len(),
    {
        self.syms.len()
    }

    /// The first index of the prefix `syms[..end]` whose symbol lies behind `query`.
    fn partition_point(&self, query: u64, end: usize) -> (idx: usize)
        requires
            end <= self.syms@.len(),
            sorted_to(self.syms@, end as int),
        ensures
            idx <= end,
            forall|k: int| 0 <= k < idx ==> self.syms@[k].addr <= query,
            forall|k: int| idx <= k < end ==> self.syms@[k].addr > query,
    {
        let mut lo: usize = 0;
        let mut hi: usize = end;
        while lo < hi
            invariant
                lo <= hi <= end <= self.syms@.len(),
                sorted_to(self.syms@, end as int),
                forall|k: int| 0 <= k < lo ==> self.syms@[k].addr <= query,
                forall|k: int| hi <= k < end ==> self.syms@[k].addr > query,
            decreases hi - lo,
        {
            let mid: usize = lo + (hi - lo) / 2;
            if self.syms[mid].addr <= query {
                lo = mid + 1;
            } else {
                hi = mid;
            }
        }
        lo
    }

    /// Sorts by address, where that is still to be done. Symbols of one address keep their order.
    pub fn ensure_sorted(&mut self)
        requires
            old(self).wf(),
        ensures
            final(self).wf(),
            SymbolTable::put_in_order(*old(self), *final(self)),
    {
        if self.dirty {
            let mut i: usize = 0;
            while i < self.syms.len()
                invariant
                    self.dirty,
                    i <= self.syms@.len(),
                    sorted_to(self.syms@, i as int),
                    same_symbols(old(self).syms@, self.syms@),
                decreases self.syms@.len() - i,
            {
                let to: usize = self.partition_point(self.syms[i].addr, i);
                let ghost before = self.syms@;
                proof {
                    lemma_move(before, i as int, to as int);
                }
                let s = self.syms.remove(i);
                self.syms.insert(to, s);
                i += 1;
                proof {
                    let after = self.syms@;
                    assert(after =~= before.remove(i - 1).insert(to as int, before[i - 1]));
                    assert forall|j: int, k: int| 0 <= j <= k < i implies after[j].addr
                        <= after[k].addr by {
                        if j < to && k > to {
                            assert(before[j].addr <= before[k - 1].addr);
                        } else if j > to {
                            assert(before[j - 1].addr <= before[k - 1].addr);
                        }
                    }
                }
            }
            self.dirty = false;
        }
    }

    /// The nearest predecessor without a plausibility cap, its distance, and the address of its
    /// successor. For a caller that already knows `query` to be inside a registered code range,
    /// so that the attribution is sound however large the offset.
    pub fn resolve_nearest(&self, query: u64) -> (r: Option<(&Symbol, u64, Option<u64>)>)
        requires
            sorted(self@),
        ensures
            match r {
                Some((s, off, next)) => nearest(self@, query) == Some(*s) && off == query - s.addr
                    && next == following(self@, query),
                None => nearest(self@, query) is None,
            },
    {
        let idx: usize = self.partition_point(query, self.syms.len());
        proof {
            lemma_sorted_nearest(self@, query, idx as int);
        }
        if idx == 0 {
            return None;
        }
        let sym = &self.syms[idx - 1];
        let next = if idx < self.syms.len() {
            Some(self.syms[idx].addr)
        } else {
            None
        };
        Some((sym, query - sym.addr, next))
    }

    /// The symbol whose `addr` is the highest value `<= query`, with the distance. `None` where
    /// there is no such symbol or the candidate is implausibly far away: with no size to go by, a
    /// large offset is more likely stack data that happens to be near a code address. The bound
    /// is the successor symbol and [`MAX_EXTENT`].
    pub fn resolve(&self, query: u64) -> (r: Option<(&Symbol, u64)>)
        requires
            sorted(self@),
        ensures
            match r {
                Some((s, off)) => plausible(self@, query) == Some(*s) && off == query - s.addr,
                None => plausible(self@, query) is None,
            },
    {
        let (sym, offset, next) = self.resolve_nearest(query)?;
        proof {
            lemma_following(self@, query);
        }
        let ceiling: u64 = match next {
            Some(n) => if n - sym.addr < MAX_EXTENT {
                n - sym.addr
            } else {
                MAX_EXTENT
            },
            None => MAX_EXTENT,
        };
        if offset >= ceiling {
            return None;
        }
        Some((sym, offset))
    }
}

} // verus!
