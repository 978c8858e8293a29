//! Crash dumper for JITed code.
//!
//! The host installs a process-wide Vectored Exception Handler that runs first for any
//! exception: access violations, illegal instructions, divide-by-zero, and `int 3` breakpoints.
//! What the handler decides and what it prints is settled here, from plain values: the exception
//! record, a snapshot of the registers and the memory cells that the host could read.
//!
//! In a subroutine-threaded Forth, RSP is the return stack, so a stack qword that points into a
//! registered code range is a return address: a backtrace is a linear classify-and-filter scan,
//! without unwind metadata. [`format_forth_dump`] renders, in order: the faulting word, the data
//! stack, the return-stack word trace with data cells flagged, the key user variables, and only
//! then the raw CPU registers.
//!
//! `int 3` is not fatal: the dump is printed, RIP moves past the one-byte `0xCC`, and execution
//! goes on. All other exceptions are dumped and passed on.

pub mod dump;
pub mod shown;
pub mod symbols;

use vstd::prelude::*;
use vstd::string::*;

use crate::backend::Loader;
use crate::seh::symbols::{
    nearest, order_does_not_matter, plausible, same_symbols, sorted, Symbol, SymbolTable,
};
use crate::text::{all_digits, hex, hex_spells_the_number, push_hex, spelled};

pub use crate::seh::dump::{dump_addresses, format_forth_dump, read_qword, Cell};

verus! {

/// Not handled here: the next handler is to look at it.
pub const EXCEPTION_CONTINUE_SEARCH: i32 = 0;

/// Handled: execution goes on.
pub const EXCEPTION_CONTINUE_EXECUTION: i32 = -1;

pub const STATUS_ACCESS_VIOLATION: u32 = 0xC000_0005;

pub const STATUS_BREAKPOINT: u32 = 0x8000_0003;

pub const STATUS_SINGLE_STEP: u32 = 0x8000_0004;

pub const STATUS_ILLEGAL_INSTRUCTION: u32 = 0xC000_001D;

pub const STATUS_PRIVILEGED_INSTRUCTION: u32 = 0xC000_0096;

pub const STATUS_STACK_OVERFLOW: u32 = 0xC000_00FD;

pub const STATUS_INTEGER_DIVIDE_BY_ZERO: u32 = 0xC000_0094;

pub const STATUS_INTEGER_OVERFLOW: u32 = 0xC000_0095;

pub const MEM_COMMIT: u32 = 0x1000;

pub const PAGE_GUARD: u32 = 0x100;

/// Protections that permit a read: READONLY, READWRITE, WRITECOPY and their EXECUTE variants.
/// Execute-only (0x10) and NOACCESS (0x01) do not.
pub const PAGE_READABLE: u32 = 0x02 | 0x04 | 0x08 | 0x20 | 0x40 | 0x80;

/// A JIT code extent `[start, end)`.
#[derive(Clone, Copy, Debug)]
pub struct CodeRange {
    pub start: u64,
    pub end: u64,
    pub kind: &'static str,
}

/// One user-area variable to surface in the crash dump: its name, and its byte offset from the
/// user-area base.
#[derive(Clone, Copy, Debug)]
pub struct ForthVar {
    pub name: &'static str,
    pub offset: u64,
}

/// Everything the dumper needs to render the Forth view. The host registers it at each session
/// boot.
#[derive(Clone, Debug)]
pub struct ForthDumpInfo {
    /// Expected value of UP (RBX) while Forth runs; user variables are read relative to it, and
    /// only shown when RBX matches.
    pub user_base: u64,
    /// The data stack (RBP) grows down; live cells are `[RBP, dstack_top)`, with TOS in RAX.
    pub dstack_low: u64,
    pub dstack_top: u64,
    /// The return stack (RSP) grows down; the live region is `[RSP, rstack_top)`.
    pub rstack_low: u64,
    pub rstack_top: u64,
    /// Key user variables to print.
    pub vars: Vec<ForthVar>,
}

/// A snapshot of the integer registers at the fault.
#[derive(Clone, Copy, Debug, Default)]
pub struct CrashRegs {
    pub rax: u64,
    pub rbx: u64,
    pub rcx: u64,
    pub rdx: u64,
    pub rsi: u64,
    pub rdi: u64,
    pub rbp: u64,
    pub rsp: u64,
    pub r8: u64,
    pub r9: u64,
    pub r10: u64,
    pub r11: u64,
    pub r12: u64,
    pub r13: u64,
    pub r14: u64,
    pub r15: u64,
    pub rip: u64,
    pub eflags: u32,
}

/// What the dumper knows of the process: its symbols, its code extents and its Forth layout.
pub struct Dumper {
    pub symbols: SymbolTable,
    pub code_ranges: Vec<CodeRange>,
    pub forth_info: Option<ForthDumpInfo>,
    pub installed: bool,
}

/// What [`install`] asks of the host.
#[derive(Clone, Copy, Debug, PartialEq, Eq, Structural)]
pub enum InstallStep {
    /// The handler is in place.
    Done,
    /// Add the handler to the process, and hand its handle to [`handler_added`].
    AddHandler,
}

/// What the exception handler does: whether it prints a dump, where execution is to go on, and
/// what it tells the system.
#[derive(Clone, Copy, Debug, PartialEq, Eq, Structural)]
pub struct Verdict {
    pub dump: bool,
    pub rip: u64,
    pub disposition: i32,
}

/// `addr` lies inside one of the extents.
pub open spec fn in_code(ranges: Seq<CodeRange>, addr: u64) -> bool {
    exists|i: int| 0 <= i < ranges.len() && (#[trigger] ranges[i]).start <= addr < ranges[i].end
}

/// How an address is shown: `<name+0xNN> [source]`, without the offset where it is zero. Inside
/// code the nearest symbol names it, elsewhere only a plausible one.
pub open spec fn symbol_text(syms: Seq<Symbol>, ranges: Seq<CodeRange>, addr: u64) -> Option<
    Seq<char>,
> {
    let hit = if in_code(ranges, addr) {
        nearest(syms, addr)
    } else {
        plausible(syms, addr)
    };
    match hit {
        None => None,
        Some(s) => Some(
            "<"@ + s.name@ + (if addr == s.addr {
                Seq::empty()
            } else {
                "+0x"@ + hex((addr - s.addr) as nat)
            }) + "> ["@ + s.source@ + "]"@,
        ),
    }
}

impl Dumper {
    pub open spec fn wf(&self) -> bool {
        self.symbols.wf()
    }

    /// [`symbol_text`] over what is registered.
    pub open spec fn text_at(&self, addr: u64) -> Option<Seq<char>> {
        symbol_text(self.symbols@, self.code_ranges@, addr)
    }

    pub fn new() -> (d: Dumper)
        ensures
            d.wf(),
            d.symbols@ == Seq::<Symbol>::empty(),
            d.code_ranges@ == Seq::<CodeRange>::empty(),
            d.forth_info is None,
            !d.installed,
    {
        Dumper {
            symbols: SymbolTable::new(),
            code_ranges: Vec::new(),
            forth_info: None,
            installed: false,
        }
    }
}

/// Asks for the exception handler to be installed, once.
pub fn install(d: &Dumper) -> (step: InstallStep)
    ensures
        step == if d.installed {
            InstallStep::Done
        } else {
            InstallStep::AddHandler
        },
{
    if d.installed {
        InstallStep::Done
    } else {
        InstallStep::AddHandler
    }
}

/// Takes note of the handle that the system gave for the handler; zero means that it refused.
pub fn handler_added(d: &mut Dumper, handle: u64) -> (r: Result<(), &'static str>)
    ensures
        *final(d) == (Dumper { installed: old(d).installed || handle != 0, ..*old(d) }),
        match r {
            Ok(_) => handle != 0,
            Err(e) => handle == 0 && e@ == "AddVectoredExceptionHandler returned null"@,
        },
{
    if handle == 0 {
        return Err("AddVectoredExceptionHandler returned null");
    }
    d.installed = true;
    Ok(())
}

/// True if the handler has been installed.
pub fn is_installed(d: &Dumper) -> (b: bool)
    ensures
        b == d.installed,
{
    d.installed
}

/// Registers a (name, address) pair for symbolic crash dumps. The table is sorted on the next
/// lookup. `source` is a short string for the dump: `"win32"`, `"jit_proc"`, `"user"`.
pub fn register(d: &mut Dumper, name: &str, addr: u64, source: &'static str)
    ensures
        final(d).wf(),
        registering(*old(d), *final(d), name@, addr, source),
{
    d.symbols.add(name.to_owned(), addr, source);
    assert(d.symbols@.drop_last() =~= old(d).symbols@);
}

/// The symbols that a bulk registration adds.
pub open spec fn symbols_of(items: Seq<(String, u64, &'static str)>) -> Seq<Symbol> {
    items.map_values(
        |it: (String, u64, &'static str)| (Symbol { addr: it.1, name: it.0, source: it.2 }),
    )
}

/// Registers each `(name, address, source)` in turn.
pub fn register_many(d: &mut Dumper, items: Vec<(String, u64, &'static str)>)
    requires
        old(d).wf(),
    ensures
        final(d).wf(),
        final(d).symbols@ == old(d).symbols@ + symbols_of(items@),
        final(d).code_ranges == old(d).code_ranges,
        final(d).forth_info == old(d).forth_info,
        final(d).installed == old(d).installed,
{
    let ghost all = items@;
    let mut items = items;
    let mut back: Vec<(String, u64, &'static str)> = Vec::new();
    while items.len() > 0
        invariant
            items@.len() + back@.len() == all.len(),
            items@ == all.take(items@.len() as int),
            forall|k: int| 0 <= k < back@.len() ==> back@[k] == all[all.len() - 1 - k],
        decreases items@.len(),
    {
        if let Some(it) = items.pop() {
            back.push(it);
        }
    }
    assert(d.symbols@ =~= old(d).symbols@ + symbols_of(all).take(0));
    while back.len() > 0
        invariant
            back@.len() <= all.len(),
            forall|k: int| 0 <= k < back@.len() ==> back@[k] == all[all.len() - 1 - k],
            d.wf(),
            d.symbols@ == old(d).symbols@ + symbols_of(all).take(all.len() - back@.len()),
            d.code_ranges == old(d).code_ranges,
            d.forth_info == old(d).forth_info,
            d.installed == old(d).installed,
        decreases back@.len(),
    {
        let ghost n = all.len() - back@.len();
        if let Some((name, addr, source)) = back.pop() {
            d.symbols.add(name, addr, source);
            assert(symbols_of(all).take(n + 1) =~= symbols_of(all).take(n).push(
                symbols_of(all)[n],
            ));
            assert(d.symbols@ =~= old(d).symbols@ + symbols_of(all).take(n + 1));
        }
    }
    assert(symbols_of(all).take(all.len() as int) =~= symbols_of(all));
}

/// Number of registered symbols.
pub fn symbol_count(d: &Dumper) -> (n: usize)
    ensures
        n == d.symbols@.len(),
{
    d.symbols.len()
}

/// Registers a JIT code extent `[start, end)`. The dumper takes a stack qword that points into
/// one for a return address, and names it without the plausibility cap. An empty extent is
/// ignored.
pub fn register_code_range(d: &mut Dumper, start: u64, end: u64, kind: &'static str)
    ensures
        final(d).code_ranges@ == if end > start {
            old(d).code_ranges@.push((CodeRange { start, end, kind }))
        } else {
            old(d).code_ranges@
        },
        final(d).symbols == old(d).symbols,
        final(d).forth_info == old(d).forth_info,
        final(d).installed == old(d).installed,
{
    if end > start {
        d.code_ranges.push(CodeRange { start, end, kind });
    }
}

/// Drops all registered code ranges, so that those of an earlier session do not linger.
pub fn clear_code_ranges(d: &mut Dumper)
    ensures
        final(d).code_ranges@ == Seq::<CodeRange>::empty(),
        final(d).symbols == old(d).symbols,
        final(d).forth_info == old(d).forth_info,
        final(d).installed == old(d).installed,
{
    d.code_ranges.clear();
}

pub(crate) fn range_holds(ranges: &Vec<CodeRange>, addr: u64) -> (b: bool)
    ensures
        b == in_code(ranges@, addr),
{
    let mut i: usize = 0;
    while i < ranges.len()
        invariant
            i <= ranges@.len(),
            forall|k: int|
                0 <= k < i ==> !((#[trigger] ranges@[k]).start <= addr < ranges@[k].end),
        decreases ranges@.len() - i,
    {
        if ranges[i].start <= addr && addr < ranges[i].end {
            return true;
        }
        i += 1;
    }
    false
}

/// True iff `addr` lies inside a registered code range: it is plausibly a return address into
/// JITed Forth code, not stack data.
pub fn is_code(d: &Dumper, addr: u64) -> (b: bool)
    ensures
        b == in_code(d.code_ranges@, addr),
{
    range_holds(&d.code_ranges, addr)
}

/// [`symbolize`] over a table that is in order.
pub(crate) fn symbol_string(symbols: &SymbolTable, ranges: &Vec<CodeRange>, addr: u64) -> (r:
    Option<String>)
    requires
        sorted(symbols@),
    ensures
        match r {
            Some(s) => symbol_text(symbols@, ranges@, addr) == Some(s@),
            None => symbol_text(symbols@, ranges@, addr) is None,
        },
{
    let hit = if range_holds(ranges, addr) {
        match symbols.resolve_nearest(addr) {
            Some((s, off, _)) => Some((s, off)),
            None => None,
        }
    } else {
        symbols.resolve(addr)
    };
    let (sym, off) = hit?;
    let mut out = String::new();
    out.append("<");
    out.append(sym.name.as_str());
    if off != 0 {
        out.append("+0x");
        push_hex(&mut out, off);
    }
    out.append("> [");
    out.append(sym.source);
    out.append("]");
    assert(out@ =~= symbol_text(symbols@, ranges@, addr)->Some_0);
    Some(out)
}

/// Names an address: `"<name+0xNN> [source]"`, or `None` if nothing is near. Inside a code range
/// the plausibility cap does not hold. Sorts the table where that is still to be done.
pub fn symbolize(d: &mut Dumper, addr: u64) -> (r: Option<String>)
    requires
        old(d).wf(),
    ensures
        match r {
            Some(s) => old(d).text_at(addr) == Some(s@),
            None => old(d).text_at(addr) is None,
        },
        final(d).wf(),
        sorted(final(d).symbols@),
        same_symbols(old(d).symbols@, final(d).symbols@),
        final(d).code_ranges == old(d).code_ranges,
        final(d).forth_info == old(d).forth_info,
        final(d).installed == old(d).installed,
{
    d.symbols.ensure_sorted();
    proof {
        order_does_not_matter(old(d).symbols@, d.symbols@, addr);
    }
    symbol_string(&d.symbols, &d.code_ranges, addr)
}

/// Registers the Forth runtime layout; the latest wins.
pub fn set_forth_dump_info(d: &mut Dumper, info: ForthDumpInfo)
    ensures
        *final(d) == (Dumper { forth_info: Some(info), ..*old(d) }),
{
    d.forth_info = Some(info);
}

/// What the handler does with an exception. Single steps belong to a debugger and make no noise;
/// a breakpoint is an inspect point, past which execution goes on; everything else is dumped and
/// left to the next handler.
pub fn on_exception(code: u32, rip: u64) -> (v: Verdict)
    ensures
        v.dump == (code != STATUS_SINGLE_STEP),
        code == STATUS_BREAKPOINT ==> v.disposition == EXCEPTION_CONTINUE_EXECUTION && v.rip == (rip
            + 1) % 0x1_0000_0000_0000_0000,
        v.dump == (code != 0x8000_0004),
        v.disposition == if code == 0x8000_0003 {
            -1i32
        } else {
            0i32
        },
        code != STATUS_BREAKPOINT ==> v.disposition == EXCEPTION_CONTINUE_SEARCH && v.rip == rip,
{
    if code == STATUS_SINGLE_STEP {
        return Verdict { dump: false, rip, disposition: EXCEPTION_CONTINUE_SEARCH };
    }
    if code == STATUS_BREAKPOINT {
        return Verdict {
            dump: true,
            rip: rip.wrapping_add(1),
            disposition: EXCEPTION_CONTINUE_EXECUTION,
        };
    }
    Verdict { dump: true, rip, disposition: EXCEPTION_CONTINUE_SEARCH }
}

/// The access kind and the faulting address of an access violation. `parameters` counts the
/// exception's parameters, of which the first two are given.
pub fn access_info(code: u32, parameters: u32, first: u64, second: u64) -> (r: Option<(u32, u64)>)
    ensures
        r == if code == STATUS_ACCESS_VIOLATION && parameters >= 2 {
            Some(((first % 0x1_0000_0000) as u32, second))
        } else {
            None
        },
        r is Some <==> code == 0xC000_0005 && parameters >= 2,
{
    if code == STATUS_ACCESS_VIOLATION && parameters >= 2 {
        assert(first as u32 == first % 0x1_0000_0000) by (bit_vector);
        Some((first as u32, second))
    } else {
        None
    }
}

/// True iff a page of this state and protection is committed and readable. `found` says that the
/// system knew the page at all.
pub fn page_readable(found: bool, state: u32, protect: u32) -> (b: bool)
    ensures
        b == (found && state == MEM_COMMIT && protect & PAGE_GUARD == 0 && protect & PAGE_READABLE
            != 0),
        b == (found && state == 0x1000 && protect & 0x100 == 0 && protect & 0xEE != 0),
{
    assert(0x02u32 | 0x04 | 0x08 | 0x20 | 0x40 | 0x80 == 0xEE) by (bit_vector);
    found && state == MEM_COMMIT && (protect & PAGE_GUARD) == 0 && (protect & PAGE_READABLE) != 0
}

/// The name of an exception code.
pub open spec fn kind_text(code: u32) -> Seq<char> {
    if code == STATUS_ACCESS_VIOLATION {
        "ACCESS_VIOLATION"@
    } else if code == STATUS_BREAKPOINT {
        "BREAKPOINT (int 3)"@
    } else if code == STATUS_ILLEGAL_INSTRUCTION {
        "ILLEGAL_INSTRUCTION"@
    } else if code == STATUS_PRIVILEGED_INSTRUCTION {
        "PRIVILEGED_INSTRUCTION"@
    } else if code == STATUS_STACK_OVERFLOW {
        "STACK_OVERFLOW"@
    } else if code == STATUS_INTEGER_DIVIDE_BY_ZERO {
        "INTEGER_DIVIDE_BY_ZERO"@
    } else if code == STATUS_INTEGER_OVERFLOW {
        "INTEGER_OVERFLOW"@
    } else {
        "(see Windows status codes for hex)"@
    }
}

pub fn exception_kind(code: u32) -> (s: &'static str)
    ensures
        s@ == kind_text(code),
{
    match code {
        STATUS_ACCESS_VIOLATION => "ACCESS_VIOLATION",
        STATUS_BREAKPOINT => "BREAKPOINT (int 3)",
        STATUS_ILLEGAL_INSTRUCTION => "ILLEGAL_INSTRUCTION",
        STATUS_PRIVILEGED_INSTRUCTION => "PRIVILEGED_INSTRUCTION",
        STATUS_STACK_OVERFLOW => "STACK_OVERFLOW",
        STATUS_INTEGER_DIVIDE_BY_ZERO => "INTEGER_DIVIDE_BY_ZERO",
        STATUS_INTEGER_OVERFLOW => "INTEGER_OVERFLOW",
        _ => "(see Windows status codes for hex)",
    }
}

/// `after` is `before` with a JIT proc for each name, at these addresses.
pub open spec fn procs_added(
    before: Seq<Symbol>,
    after: Seq<Symbol>,
    names: Seq<&str>,
    addrs: Seq<u64>,
) -> bool {
    &&& after.len() == before.len() + names.len()
    &&& after.take(before.len() as int) == before
    &&& forall|k: int|
        0 <= k < names.len() ==> {
            let s = #[trigger] after[before.len() + k];
            &&& s.name@ == names[k]@
            &&& s.addr == addrs[k]
            &&& s.source@ == "jit_proc"@
        }
}

/// Registers JIT procs whose addresses are known.
pub fn register_procs(d: &mut Dumper, names: &[&str], addrs: &Vec<u64>)
    requires
        old(d).wf(),
        addrs@.len() == names@.len(),
    ensures
        final(d).wf(),
        procs_added(old(d).symbols@, final(d).symbols@, names@, addrs@),
        final(d).code_ranges == old(d).code_ranges,
        final(d).forth_info == old(d).forth_info,
        final(d).installed == old(d).installed,
{
    let mut items: Vec<(String, u64, &'static str)> = Vec::new();
    let mut i: usize = 0;
    while i < names.len()
        invariant
            i <= names@.len() == addrs@.len(),
            items@.len() == i,
            forall|k: int|
                0 <= k < i ==> (#[trigger] items@[k]).0@ == names@[k]@ && items@[k].1 == addrs@[k]
                    && items@[k].2@ == "jit_proc"@,
        decreases names@.len() - i,
    {
        items.push((names[i].to_owned(), addrs[i], "jit_proc"));
        i += 1;
    }
    let ghost added = symbols_of(items@);
    register_many(d, items);
    assert(d.symbols@.take(old(d).symbols@.len() as int) =~= old(d).symbols@);
    assert(forall|k: int|
        0 <= k < names@.len() ==> d.symbols@[old(d).symbols@.len() + k] == #[trigger] added[k]);
}

/// A lookup of `name` by the loader `l` may give `r`.
pub open spec fn gave<L: Loader>(l: &mut L, name: &str, r: Result<u64, L::Error>) -> bool {
    call_ensures(L::lookup_addr, (l, name), r)
}

/// A loader that starts out as `before` goes through `states`, a step for each of `addrs`.
pub open spec fn steps<L>(before: L, states: Seq<L>, addrs: Seq<u64>) -> bool {
    states.len() == addrs.len() + 1 && states[0] == before
}

/// `k` is the number of a step.
pub open spec fn is_step(addrs: Seq<u64>, k: int) -> bool {
    0 <= k < addrs.len()
}

/// Looks `name` up, once: the answer and the state that the loader is left in are those of the call.
fn look_up<L: Loader>(loader: &mut L, name: &str) -> (r: Result<u64, L::Error>)
    ensures
        exists|l: &mut L|
            {
                &&& *l == *old(loader)
                &&& *final(l) == *final(loader)
                &&& #[trigger] gave(l, name, r)
            },
{
    let r = loader.lookup_addr(name);
    assert(exists|l: &mut L|
        {
            &&& *l == *old(loader)
            &&& *final(l) == *loader
            &&& #[trigger] call_ensures(L::lookup_addr, (l, name), r)
            &&& gave(l, name, r)
        });
    r
}

/// Looks each name up in turn and registers it as a JIT proc, at the address that the loader gave
/// for it. Where a lookup fails, its error comes back, no further name is looked up, and nothing
/// is registered.
pub fn register_jit_procs<L: Loader>(d: &mut Dumper, loader: &mut L, names: &[&str]) -> (r: Result<
    (),
    L::Error,
>)
    requires
        old(d).wf(),
    ensures
        final(d).wf(),
        r is Ok ==> exists|states: Seq<L>, addrs: Seq<u64>|
            {
                &&& #[trigger] steps(*old(loader), states, addrs)
                &&& addrs.len() == names@.len()
                &&& forall|k: int|
                    #[trigger] is_step(addrs, k) ==> exists|l: &mut L|
                        {
                            &&& *l == states[k]
                            &&& *final(l) == states[k + 1]
                            &&& #[trigger] gave(l, names@[k], Ok(addrs[k]))
                        }
                &&& states.last() == *final(loader)
                &&& procs_added(old(d).symbols@, final(d).symbols@, names@, addrs)
            },
        r matches Err(e) ==> exists|states: Seq<L>, addrs: Seq<u64>|
            {
                &&& #[trigger] steps(*old(loader), states, addrs)
                &&& addrs.len() < names@.len()
                &&& forall|k: int|
                    #[trigger] is_step(addrs, k) ==> exists|l: &mut L|
                        {
                            &&& *l == states[k]
                            &&& *final(l) == states[k + 1]
                            &&& #[trigger] gave(l, names@[k], Ok(addrs[k]))
                        }
                &&& exists|l: &mut L, last: Result<u64, L::Error>|
                    {
                        &&& *l == states.last()
                        &&& *final(l) == *final(loader)
                        &&& #[trigger] gave(l, names@[addrs.len() as int], last)
                        &&& last == Err::<u64, L::Error>(e)
                    }
            },
        r is Err ==> final(d).symbols == old(d).symbols,
        final(d).code_ranges == old(d).code_ranges,
        final(d).forth_info == old(d).forth_info,
        final(d).installed == old(d).installed,
{
    let mut addrs: Vec<u64> = Vec::new();
    let ghost mut states: Seq<L> = seq![*loader];
    let mut i: usize = 0;
    while i < names.len()
        invariant
            i <= names@.len(),
            addrs@.len() == i,
            steps(*old(loader), states, addrs@),
            states.last() == *loader,
            forall|k: int|
                #[trigger] is_step(addrs@, k) ==> exists|l: &mut L|
                    {
                        &&& *l == states[k]
                        &&& *final(l) == states[k + 1]
                        &&& #[trigger] gave(l, names@[k], Ok(addrs@[k]))
                    },
            *d == *old(d),
            d.wf(),
        decreases names@.len() - i,
    {
        let ghost (before, known) = (states, addrs@);
        match look_up(loader, names[i]) {
            Ok(addr) => {
                addrs.push(addr);
                proof {
                    states = states.push(*loader);
                    assert forall|k: int|
                        #[trigger] is_step(addrs@, k) implies exists|l: &mut L|
                            {
                                &&& *l == states[k]
                                &&& *final(l) == states[k + 1]
                                &&& #[trigger] gave(l, names@[k], Ok(addrs@[k]))
                            } by {
                        if k < i {
                            assert(is_step(known, k));
                            assert(known[k] == addrs@[k]);
                            assert(states[k] == before[k] && states[k + 1] == before[k + 1]);
                        } else {
                            assert(names@[k] == names@[i as int] && addrs@[k] == addr);
                            assert(states[k] == before[k]);
                        }
                    }
                }
            },
            Err(e) => {
                return Err(e);
            },
        }
        i += 1;
    }
    register_procs(d, names, &addrs);
    Ok(())
}

/// An address is in code exactly where one of the extents holds it, from its start up to but
/// without its end.
pub proof fn extents_are_half_open(a: Seq<CodeRange>, range: CodeRange, addr: u64)
    ensures
        !in_code(Seq::empty(), addr),
        in_code(a.push(range), addr) <==> in_code(a, addr) || range.start <= addr < range.end,
{
    let all = a.push(range);
    assert forall|i: int| 0 <= i < a.len() implies all[i] == a[i] by {}
    if in_code(a, addr) {
        let i = choose|i: int|
            0 <= i < a.len() && (#[trigger] a[i]).start <= addr < a[i].end;
        assert(all[i].start <= addr < all[i].end);
    }
    if in_code(all, addr) {
        let i = choose|i: int|
            0 <= i < all.len() && (#[trigger] all[i]).start <= addr < all[i].end;
        if i < a.len() {
            assert(a[i].start <= addr < a[i].end);
        }
    }
    if range.start <= addr < range.end {
        assert(all[a.len() as int] == range);
    }
}

/// `s` is the symbol that `addr` belongs to: the last one registered at the highest address that
/// has any and is not above `addr`.
pub open spec fn owns(syms: Seq<Symbol>, s: Symbol, addr: u64) -> bool {
    &&& s.addr <= addr
    &&& exists|i: int|
        0 <= i < syms.len() && (#[trigger] syms[i]) == s && forall|j: int|
            i < j < syms.len() ==> (#[trigger] syms[j]).addr != s.addr
    &&& forall|j: int|
        0 <= j < syms.len() ==> !(s.addr < (#[trigger] syms[j]).addr && syms[j].addr <= addr)
}

proof fn lemma_nearest_owns(syms: Seq<Symbol>, addr: u64)
    ensures
        match nearest(syms, addr) {
            Some(s) => owns(syms, s, addr),
            None => forall|j: int| 0 <= j < syms.len() ==> (#[trigger] syms[j]).addr > addr,
        },
    decreases syms.len(),
{
    if syms.len() > 0 {
        let init = syms.drop_last();
        let n = syms.len() - 1;
        lemma_nearest_owns(init, addr);
        assert forall|j: int| 0 <= j < n implies #[trigger] syms[j] == init[j] by {}
        if let Some(s) = nearest(syms, addr) {
            if nearest(init, addr) == Some(s) && !(syms[n].addr <= addr && s.addr
                <= syms[n].addr) {
                let i = choose|i: int|
                    0 <= i < init.len() && (#[trigger] init[i]) == s && forall|j: int|
                        i < j < init.len() ==> (#[trigger] init[j]).addr != s.addr;
                assert(syms[i] == s);
                assert forall|j: int| i < j < syms.len() implies (#[trigger] syms[j]).addr
                    != s.addr by {
                    if j < n {
                        assert(init[j] == syms[j]);
                    }
                }
            } else {
                assert(syms[n] == s);
            }
            assert forall|j: int| 0 <= j < syms.len() implies !(s.addr < (#[trigger] syms[j]).addr
                && syms[j].addr <= addr) by {
                if j < n {
                    assert(init[j] == syms[j]);
                }
            }
        } else {
            assert forall|j: int| 0 <= j < syms.len() implies (#[trigger] syms[j]).addr > addr by {
                if j < n {
                    assert(init[j] == syms[j]);
                }
            }
        }
    }
}

/// `text` names an address that lies `off` bytes behind the start of `s`: the name of the symbol in
/// angle brackets, with the offset in hexadecimal digits where there is one, and its source.
pub open spec fn names_offset(text: Seq<char>, s: Symbol, off: int) -> bool {
    if off == 0 {
        text == "<"@ + s.name@ + "> ["@ + s.source@ + "]"@
    } else {
        exists|digits: Seq<char>| #[trigger]
            all_digits(digits, 16, false) && spelled(digits, 16) == off && digits[0] != '0' && text
                == "<"@ + s.name@ + "+0x"@ + digits + "> ["@ + s.source@ + "]"@
    }
}

/// An address is named after the symbol that it belongs to, by its distance from it. Outside code
/// it has a name only where that distance is less than 64 KiB; inside, wherever there is a symbol
/// at or below it.
pub proof fn addresses_are_named_by_their_symbols(
    syms: Seq<Symbol>,
    ranges: Seq<CodeRange>,
    addr: u64,
)
    ensures
        match symbol_text(syms, ranges, addr) {
            Some(text) => exists|s: Symbol| #[trigger]
                owns(syms, s, addr) && names_offset(text, s, addr - s.addr) && (in_code(ranges, addr)
                    || addr - s.addr < 0x1_0000),
            None => (forall|j: int| 0 <= j < syms.len() ==> (#[trigger] syms[j]).addr > addr) || (
            !in_code(ranges, addr) && exists|s: Symbol| #[trigger]
                owns(syms, s, addr) && addr - s.addr >= 0x1_0000),
        },
{
    lemma_nearest_owns(syms, addr);
    crate::seh::symbols::lemma_following(syms, addr);
    if let Some(s) = nearest(syms, addr) {
        assert(owns(syms, s, addr));
        hex_spells_the_number((addr - s.addr) as nat);
        if let Some(text) = symbol_text(syms, ranges, addr) {
            let digits = hex((addr - s.addr) as nat);
            if addr == s.addr {
                assert(text =~= "<"@ + s.name@ + "> ["@ + s.source@ + "]"@);
            } else {
                assert(text =~= "<"@ + s.name@ + "+0x"@ + digits + "> ["@ + s.source@ + "]"@);
                assert(all_digits(digits, 16, false));
            }
            assert(names_offset(text, s, addr - s.addr));
        }
    }
}

/// The codes of the exceptions that have a name.
pub proof fn exceptions_are_named_by_code(code: u32)
    ensures
        code == 0xC000_0005 ==> kind_text(code) == "ACCESS_VIOLATION"@,
        code == 0x8000_0003 ==> kind_text(code) == "BREAKPOINT (int 3)"@,
        code == 0xC000_001D ==> kind_text(code) == "ILLEGAL_INSTRUCTION"@,
        code == 0xC000_0096 ==> kind_text(code) == "PRIVILEGED_INSTRUCTION"@,
        code == 0xC000_00FD ==> kind_text(code) == "STACK_OVERFLOW"@,
        code == 0xC000_0094 ==> kind_text(code) == "INTEGER_DIVIDE_BY_ZERO"@,
        code == 0xC000_0095 ==> kind_text(code) == "INTEGER_OVERFLOW"@,
        code != 0xC000_0005 && code != 0x8000_0003 && code != 0xC000_001D && code != 0xC000_0096
            && code != 0xC000_00FD && code != 0xC000_0094 && code != 0xC000_0095 ==> kind_text(code)
            == "(see Windows status codes for hex)"@,
{
}

/// A symbol counts as plausible exactly where the address belongs to it and lies less than 64 KiB
/// behind its start.
pub proof fn plausible_symbols_are_near(syms: Seq<Symbol>, addr: u64)
    ensures
        match plausible(syms, addr) {
            Some(s) => owns(syms, s, addr) && addr - s.addr < 0x1_0000 && nearest(syms, addr) == Some(
                s,
            ),
            None => nearest(syms, addr) matches Some(s) ==> addr - s.addr >= 0x1_0000,
        },
        match nearest(syms, addr) {
            Some(s) => owns(syms, s, addr),
            None => forall|j: int| 0 <= j < syms.len() ==> (#[trigger] syms[j]).addr > addr,
        },
{
    lemma_nearest_owns(syms, addr);
    crate::seh::symbols::lemma_following(syms, addr);
}

/// No two symbols own an address.
pub proof fn one_symbol_owns_an_address(syms: Seq<Symbol>, a: Symbol, b: Symbol, addr: u64)
    requires
        owns(syms, a, addr),
        owns(syms, b, addr),
    ensures
        a == b,
{
    let i = choose|i: int|
        0 <= i < syms.len() && (#[trigger] syms[i]) == a && forall|j: int|
            i < j < syms.len() ==> (#[trigger] syms[j]).addr != a.addr;
    let k = choose|k: int|
        0 <= k < syms.len() && (#[trigger] syms[k]) == b && forall|j: int|
            k < j < syms.len() ==> (#[trigger] syms[j]).addr != b.addr;
    assert(syms[i].addr == syms[k].addr);
}

/// Symbols that are registered together keep their names, addresses and sources.
pub proof fn registered_symbols_keep_their_fields(items: Seq<(String, u64, &'static str)>, i: int)
    requires
        0 <= i < items.len(),
    ensures
        symbols_of(items).len() == items.len(),
        symbols_of(items)[i].name == items[i].0,
        symbols_of(items)[i].addr == items[i].1,
        symbols_of(items)[i].source == items[i].2,
{
}

/// A proc that was registered is found at its address, by its name, unless another was registered
/// there after it.
pub proof fn registered_procs_are_found(
    before: Seq<Symbol>,
    after: Seq<Symbol>,
    names: Seq<&str>,
    addrs: Seq<u64>,
    k: int,
)
    requires
        procs_added(before, after, names, addrs),
        addrs.len() == names.len(),
        0 <= k < names.len(),
        forall|j: int| k < j < addrs.len() ==> addrs[j] != addrs[k],
    ensures
        nearest(after, addrs[k]) matches Some(s) && s.name@ == names[k]@ && s.addr == addrs[k]
            && s.source@ == "jit_proc"@,
{
    let addr = addrs[k];
    let n = before.len() as int;
    lemma_nearest_owns(after, addr);
    assert(after[n + k].addr == addr);
    let s = nearest(after, addr).unwrap();
    let i = choose|i: int|
        0 <= i < after.len() && (#[trigger] after[i]) == s && forall|j: int|
            i < j < after.len() ==> (#[trigger] after[j]).addr != s.addr;
    if i > n + k {
        let j = i - n;
        assert(after[n + j].addr == addrs[j]);
    }
    assert(s.addr == addr);
    assert(i == n + k);
}

/// What registering a symbol does.
pub open spec fn registering(
    before: Dumper,
    after: Dumper,
    name: Seq<char>,
    addr: u64,
    source: &'static str,
) -> bool {
    &&& after.symbols@.len() == before.symbols@.len() + 1
    &&& after.symbols@.drop_last() == before.symbols@
    &&& after.symbols@.last().name@ == name
    &&& after.symbols@.last().addr == addr
    &&& after.symbols@.last().source == source
    &&& after.code_ranges == before.code_ranges
    &&& after.forth_info == before.forth_info
    &&& after.installed == before.installed
}

/// An address that was just registered is named by the name that it was registered under, without
/// an offset.
pub proof fn registered_addresses_have_their_name(
    before: Dumper,
    after: Dumper,
    name: Seq<char>,
    addr: u64,
    source: &'static str,
)
    requires
        registering(before, after, name, addr, source),
    ensures
        after.text_at(addr) == Some("<"@ + name + "> ["@ + source@ + "]"@),
{
    let syms = after.symbols@;
    let n = syms.len() - 1;
    addresses_are_named_by_their_symbols(syms, after.code_ranges@, addr);
    plausible_symbols_are_near(syms, addr);
    let s = nearest(syms, addr).unwrap();
    assert(syms[n].addr == addr);
    let i = choose|i: int|
        0 <= i < syms.len() && (#[trigger] syms[i]) == s && forall|j: int|
            i < j < syms.len() ==> (#[trigger] syms[j]).addr != s.addr;
    assert(s.addr == addr);
    assert(i == n);
    let text = after.text_at(addr).unwrap();
    let t = choose|t: Symbol| #[trigger]
        owns(syms, t, addr) && names_offset(text, t, addr - t.addr) && (in_code(
            after.code_ranges@,
            addr,
        ) || addr - t.addr < 0x1_0000);
    one_symbol_owns_an_address(syms, s, t, addr);
}

} // verus!
