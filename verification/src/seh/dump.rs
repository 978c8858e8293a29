//! The text of a crash dump.
//!
//! The dump reads memory: the two stacks and the user variables. The host reads for it: it asks
//! for the addresses ([`dump_addresses`]), reads those whose page is readable, and hands in what
//! it found as [`Cell`]s, so that a corrupt stack pointer degrades to a note. The specification
//! functions that end in `_on` say what a part of the dump is when it is written behind the text
//! `pre`.

use vstd::prelude::*;
use vstd::string::*;

use crate::seh::symbols::{order_does_not_matter, same_symbols, sorted, Symbol, SymbolTable};
use crate::seh::{
    exception_kind, in_code, kind_text, range_holds, symbol_string, symbol_text, CodeRange,
    CrashRegs, Dumper, ForthDumpInfo, ForthVar,
};
use crate::text::{
    decimal, hex16, hex8, left_aligned, push_decimal, push_hex16, push_hex8, push_left_aligned,
    push_right_aligned, right_aligned,
};

verus! {

/// A qword that the host read.
#[derive(Clone, Copy, Debug, PartialEq, Eq, Structural)]
pub struct Cell {
    pub addr: u64,
    pub value: u64,
}

/// Most data-stack cells that a dump shows.
pub const DATA_ROWS: u64 = 16;

/// Most return-stack cells that a dump shows.
pub const RETURN_ROWS: u64 = 64;

/// Cells that a dump shows where there is no Forth view.
pub const RAW_ROWS: u64 = 32;

/// What was read at `addr`; where it was read twice, the later value.
pub open spec fn value_at(cells: Seq<Cell>, addr: u64) -> Option<u64>
    decreases cells.len(),
{
    if cells.len() == 0 {
        None
    } else if cells.last().addr == addr {
        Some(cells.last().value)
    } else {
        value_at(cells.drop_last(), addr)
    }
}

/// What the dump sees at `addr`: only aligned qwords are read.
pub open spec fn qword_at(cells: Seq<Cell>, addr: u64) -> Option<u64> {
    if addr % 8 != 0 {
        None
    } else {
        value_at(cells, addr)
    }
}

/// What a dump is made from, besides the registers.
pub struct Scene {
    pub syms: Seq<Symbol>,
    pub ranges: Seq<CodeRange>,
    pub cells: Seq<Cell>,
}

impl Scene {
    pub open spec fn name(self, addr: u64) -> Option<Seq<char>> {
        symbol_text(self.syms, self.ranges, addr)
    }

    pub open spec fn name_or(self, addr: u64, other: Seq<char>) -> Seq<char> {
        match self.name(addr) {
            Some(s) => s,
            None => other,
        }
    }

    pub open spec fn qword(self, addr: u64) -> Option<u64> {
        qword_at(self.cells, addr)
    }
}

/// The address of the `k`th cell from `base` up.
pub open spec fn cell_addr(base: u64, k: int) -> u64 {
    ((base + 8 * k) % 0x1_0000_0000_0000_0000) as u64
}

/// Heading, exception, faulting word and, for an access violation, the access.
pub open spec fn head_on(
    pre: Seq<char>,
    sc: Scene,
    regs: CrashRegs,
    code: u32,
    access: Option<(u32, u64)>,
) -> Seq<char> {
    let s = pre
        + "┌─── WF64 Forth crash dump ──────────────────────────────────────────────\n"@
        + "│ exception : 0x"@ + hex8(code) + "  "@ + kind_text(code) + "\n"@ + "│ at word   : "@
        + hex16(regs.rip) + "  "@ + sc.name_or(regs.rip, "<?>"@) + "\n"@;
    match access {
        None => s,
        Some((kind, addr)) => s + "│ access    : "@ + access_text(kind) + " at "@ + hex16(addr)
            + "  "@ + sc.name_or(addr, Seq::empty()) + "\n"@,
    }
}

pub open spec fn access_text(kind: u32) -> Seq<char> {
    if kind == 0 {
        "read"@
    } else if kind == 1 {
        "write"@
    } else if kind == 8 {
        "execute"@
    } else {
        "?"@
    }
}

pub open spec fn unreadable_on(pre: Seq<char>, addr: u64) -> Seq<char> {
    pre + "│   <unreadable @ "@ + hex16(addr) + ">\n"@
}

/// The cells of the data stack from the `k`th on, up to the first that cannot be read.
pub open spec fn data_rows_on(pre: Seq<char>, sc: Scene, base: u64, top: u64, k: int) -> Seq<char>
    decreases DATA_ROWS - k,
{
    if k >= DATA_ROWS || base + 8 * k >= top {
        pre
    } else {
        match sc.qword(cell_addr(base, k)) {
            Some(v) => data_rows_on(
                pre + "│   NOS+"@ + left_aligned(decimal(k as nat), 2) + " "@ + hex16(v) + "\n"@,
                sc,
                base,
                top,
                k + 1,
            ),
            None => unreadable_on(pre, cell_addr(base, k)),
        }
    }
}

/// How many cells of the data stack are shown, counted from `k` on.
pub open spec fn data_shown(sc: Scene, base: u64, top: u64, k: int) -> int
    decreases DATA_ROWS - k,
{
    if k >= DATA_ROWS || base + 8 * k >= top || sc.qword(cell_addr(base, k)) is None {
        k
    } else {
        data_shown(sc, base, top, k + 1)
    }
}

/// The data stack. RBP is the stack pointer; TOS is cached in RAX, and the cells below it stand at
/// `[rbp, dstack_top)`. An empty stack leaves RBP one cell above `dstack_top`.
pub open spec fn data_stack_on(pre: Seq<char>, sc: Scene, regs: CrashRegs, fi: ForthDumpInfo) -> Seq<
    char,
> {
    let s = pre + "│\n"@;
    if fi.dstack_low <= regs.rbp <= fi.dstack_top + 8 {
        let has_tos = regs.rbp <= fi.dstack_top;
        let mem_cells = if has_tos {
            (fi.dstack_top - regs.rbp) / 8
        } else {
            0
        };
        let depth = if has_tos {
            mem_cells + 1
        } else {
            0
        };
        let head = s + "│ DATA STACK  rbp="@ + hex16(regs.rbp) + "  depth="@ + decimal(depth as nat)
            + "\n"@;
        let tos = if has_tos {
            head + "│   TOS   "@ + hex16(regs.rax) + "   (rax)\n"@
        } else {
            head
        };
        let rows = data_rows_on(tos, sc, regs.rbp, fi.dstack_top, 0);
        let shown = data_shown(sc, regs.rbp, fi.dstack_top, 0);
        if mem_cells > shown {
            rows + "│   … "@ + decimal((mem_cells - shown) as nat) + " more\n"@
        } else {
            rows
        }
    } else {
        s + "│ DATA STACK  rbp="@ + hex16(regs.rbp) + "  (not in data-stack region)\n"@
    }
}

/// The cells of the return stack from the `k`th on, up to the first that cannot be read: those
/// that point into code are frames, the others data.
pub open spec fn return_rows_on(
    pre: Seq<char>,
    sc: Scene,
    base: u64,
    top: u64,
    k: int,
    frame: int,
) -> Seq<char>
    decreases RETURN_ROWS - k,
{
    if k >= RETURN_ROWS || base + 8 * k >= top {
        pre
    } else {
        match sc.qword(cell_addr(base, k)) {
            Some(v) => if in_code(sc.ranges, v) {
                return_rows_on(
                    pre + "│   #"@ + left_aligned(decimal(frame as nat), 2) + " "@ + hex16(v)
                        + "  "@ + sc.name_or(v, Seq::empty()) + "   @ rp+"@ + decimal(
                        (8 * k) as nat,
                    ) + "\n"@,
                    sc,
                    base,
                    top,
                    k + 1,
                    frame + 1,
                )
            } else {
                return_rows_on(
                    pre + "│        "@ + hex16(v) + "  (data)        @ rp+"@ + decimal(
                        (8 * k) as nat,
                    ) + "\n"@,
                    sc,
                    base,
                    top,
                    k + 1,
                    frame,
                )
            },
            None => unreadable_on(pre, cell_addr(base, k)),
        }
    }
}

/// How many frames the trace shows, counted on from `frame` at the `k`th cell.
pub open spec fn frames(sc: Scene, base: u64, top: u64, k: int, frame: int) -> int
    decreases RETURN_ROWS - k,
{
    if k >= RETURN_ROWS || base + 8 * k >= top {
        frame
    } else {
        match sc.qword(cell_addr(base, k)) {
            Some(v) => frames(
                sc,
                base,
                top,
                k + 1,
                if in_code(sc.ranges, v) {
                    frame + 1
                } else {
                    frame
                },
            ),
            None => frame,
        }
    }
}

/// The return stack as a trace of words. RSP is the stack pointer.
pub open spec fn return_stack_on(
    pre: Seq<char>,
    sc: Scene,
    regs: CrashRegs,
    fi: ForthDumpInfo,
) -> Seq<char> {
    let s = pre + "│\n"@;
    if fi.rstack_low <= regs.rsp <= fi.rstack_top {
        let head = s + "│ RETURN STACK  rsp="@ + hex16(regs.rsp) + "  top="@ + hex16(fi.rstack_top)
            + "\n"@;
        let rows = return_rows_on(head, sc, regs.rsp, fi.rstack_top, 0, 0);
        if frames(sc, regs.rsp, fi.rstack_top, 0, 0) == 0 {
            rows + "│   (no Forth return addresses found)\n"@
        } else {
            rows
        }
    } else {
        s + "│ RETURN STACK  rsp="@ + hex16(regs.rsp) + "  (not in return-stack region)\n"@
    }
}

pub open spec fn var_rows_on(pre: Seq<char>, sc: Scene, up: u64, vars: Seq<ForthVar>) -> Seq<char>
    decreases vars.len(),
{
    if vars.len() == 0 {
        pre
    } else {
        let before = var_rows_on(pre, sc, up, vars.drop_last());
        let v = vars.last();
        let name = before + "│   "@ + left_aligned(v.name@, 10);
        match sc.qword(var_addr(up, v)) {
            Some(val) => name + " = "@ + hex16(val) + "\n"@,
            None => name + " = <unreadable>\n"@,
        }
    }
}

pub open spec fn var_addr(up: u64, v: ForthVar) -> u64 {
    ((up + v.offset) % 0x1_0000_0000_0000_0000) as u64
}

/// The key user variables, where RBX holds the user base.
pub open spec fn vars_on(pre: Seq<char>, sc: Scene, regs: CrashRegs, fi: ForthDumpInfo) -> Seq<char> {
    let s = pre + "│\n"@;
    if regs.rbx == fi.user_base {
        var_rows_on(s + "│ USER VARS  up="@ + hex16(regs.rbx) + "\n"@, sc, regs.rbx, fi.vars@)
    } else {
        s + "│ USER VARS  rbx="@ + hex16(regs.rbx) + "  (≠ user base "@ + hex16(fi.user_base)
            + "; skipped)\n"@
    }
}

pub open spec fn cpu_on(pre: Seq<char>, r: CrashRegs) -> Seq<char> {
    pre + "│\n"@ + "│ CPU  rax="@ + hex16(r.rax) + " rbx="@ + hex16(r.rbx) + " rcx="@ + hex16(r.rcx)
        + "\n"@ + "│      rdx="@ + hex16(r.rdx) + " rsi="@ + hex16(r.rsi) + " rdi="@ + hex16(r.rdi)
        + "\n"@ + "│      rbp="@ + hex16(r.rbp) + " rsp="@ + hex16(r.rsp) + " rip="@ + hex16(r.rip)
        + "\n"@ + "│      r8 ="@ + hex16(r.r8) + " r9 ="@ + hex16(r.r9) + " r10="@ + hex16(r.r10)
        + "\n"@ + "│      r11="@ + hex16(r.r11) + " r12="@ + hex16(r.r12) + " r13="@ + hex16(r.r13)
        + "\n"@ + "│      r14="@ + hex16(r.r14) + " r15="@ + hex16(r.r15) + " flags="@ + hex8(
        r.eflags,
    ) + "\n"@
}

/// The cells from RSP up, from the `k`th on, up to the first that cannot be read.
pub open spec fn raw_rows_on(pre: Seq<char>, sc: Scene, base: u64, k: int) -> Seq<char>
    decreases RAW_ROWS - k,
{
    if k >= RAW_ROWS {
        pre
    } else {
        let at = pre + "│   [rsp+"@ + right_aligned(decimal((8 * k) as nat), 3);
        match sc.qword(cell_addr(base, k)) {
            Some(v) => raw_rows_on(
                at + "] "@ + hex16(v) + "  "@ + sc.name_or(v, Seq::empty()) + "\n"@,
                sc,
                base,
                k + 1,
            ),
            None => at + "] <unreadable>\n"@,
        }
    }
}

pub open spec fn raw_on(pre: Seq<char>, sc: Scene, regs: CrashRegs) -> Seq<char> {
    raw_rows_on(pre + "│\n"@ + "│ raw stack (32 qwords from rsp):\n"@, sc, regs.rsp, 0)
}

/// The whole dump: the heading, the Forth view where its layout is known, the CPU registers, the
/// raw stack where there is no Forth view.
pub open spec fn dump_text(
    sc: Scene,
    info: Option<ForthDumpInfo>,
    regs: CrashRegs,
    code: u32,
    access: Option<(u32, u64)>,
) -> Seq<char> {
    let head = head_on(Seq::empty(), sc, regs, code, access);
    let body = match info {
        Some(fi) => cpu_on(
            vars_on(
                return_stack_on(data_stack_on(head, sc, regs, fi), sc, regs, fi),
                sc,
                regs,
                fi,
            ),
            regs,
        ),
        None => raw_on(cpu_on(head, regs), sc, regs),
    };
    body + "└───────────────────────────────────────────────────────────────────────\n"@
}

impl Dumper {
    /// What a dump is made from, with the memory that could be read.
    pub open spec fn scene(&self, cells: Seq<Cell>) -> Scene {
        Scene { syms: self.symbols@, ranges: self.code_ranges@, cells }
    }
}

/// How many cells of the stack `[base, top)` are shown, at most `max`.
pub open spec fn stack_rows(base: u64, top: u64, max: int) -> nat {
    if base >= top {
        0
    } else if (top - base + 7) / 8 < max {
        ((top - base + 7) / 8) as nat
    } else {
        max as nat
    }
}

/// The addresses of `n` cells from `base` up.
pub open spec fn cell_addrs(base: u64, n: nat) -> Seq<u64> {
    Seq::new(n, |k: int| cell_addr(base, k))
}

/// The addresses that the data stack is read at.
pub open spec fn data_plan(regs: CrashRegs, fi: ForthDumpInfo) -> Seq<u64> {
    if fi.dstack_low <= regs.rbp <= fi.dstack_top + 8 {
        cell_addrs(regs.rbp, stack_rows(regs.rbp, fi.dstack_top, DATA_ROWS as int))
    } else {
        Seq::empty()
    }
}

/// The addresses that the return stack is read at.
pub open spec fn return_plan(regs: CrashRegs, fi: ForthDumpInfo) -> Seq<u64> {
    if fi.rstack_low <= regs.rsp <= fi.rstack_top {
        cell_addrs(regs.rsp, stack_rows(regs.rsp, fi.rstack_top, RETURN_ROWS as int))
    } else {
        Seq::empty()
    }
}

/// The addresses of the user variables.
pub open spec fn vars_plan(regs: CrashRegs, fi: ForthDumpInfo) -> Seq<u64> {
    if regs.rbx == fi.user_base {
        fi.vars@.map_values(|v: ForthVar| var_addr(regs.rbx, v))
    } else {
        Seq::empty()
    }
}

/// The addresses that a dump may read.
pub open spec fn planned(info: Option<ForthDumpInfo>, regs: CrashRegs) -> Seq<u64> {
    match info {
        Some(fi) => data_plan(regs, fi) + return_plan(regs, fi) + vars_plan(regs, fi),
        None => cell_addrs(regs.rsp, RAW_ROWS as nat),
    }
}

/// `a` and `b` name all addresses alike, and hold the same at the addresses of `addrs`.
pub open spec fn alike(a: Scene, b: Scene, addrs: Seq<u64>) -> bool {
    &&& same_symbols(a.syms, b.syms)
    &&& a.ranges == b.ranges
    &&& forall|i: int| 0 <= i < addrs.len() ==> a.qword(#[trigger] addrs[i]) == b.qword(addrs[i])
}

proof fn lemma_same_names(a: Scene, b: Scene)
    requires
        same_symbols(a.syms, b.syms),
        a.ranges == b.ranges,
    ensures
        forall|addr: u64| #[trigger] a.name(addr) == b.name(addr),
{
    assert forall|addr: u64| #[trigger] a.name(addr) == b.name(addr) by {
        order_does_not_matter(a.syms, b.syms, addr);
    }
}

proof fn lemma_same_data_rows(pre: Seq<char>, a: Scene, b: Scene, base: u64, top: u64, k: int)
    requires
        0 <= k,
        alike(a, b, cell_addrs(base, stack_rows(base, top, DATA_ROWS as int))),
    ensures
        data_rows_on(pre, a, base, top, k) == data_rows_on(pre, b, base, top, k),
        data_shown(a, base, top, k) == data_shown(b, base, top, k),
    decreases DATA_ROWS - k,
{
    if k < DATA_ROWS && base + 8 * k < top {
        let addrs = cell_addrs(base, stack_rows(base, top, DATA_ROWS as int));
        assert(addrs[k] == cell_addr(base, k));
        match a.qword(cell_addr(base, k)) {
            Some(v) => lemma_same_data_rows(
                pre + "│   NOS+"@ + left_aligned(decimal(k as nat), 2) + " "@ + hex16(v) + "\n"@,
                a,
                b,
                base,
                top,
                k + 1,
            ),
            None => {},
        }
    }
}

proof fn lemma_same_return_rows(
    pre: Seq<char>,
    a: Scene,
    b: Scene,
    base: u64,
    top: u64,
    k: int,
    frame: int,
)
    requires
        0 <= k,
        alike(a, b, cell_addrs(base, stack_rows(base, top, RETURN_ROWS as int))),
    ensures
        return_rows_on(pre, a, base, top, k, frame) == return_rows_on(pre, b, base, top, k, frame),
        frames(a, base, top, k, frame) == frames(b, base, top, k, frame),
    decreases RETURN_ROWS - k,
{
    lemma_same_names(a, b);
    if k < RETURN_ROWS && base + 8 * k < top {
        let addrs = cell_addrs(base, stack_rows(base, top, RETURN_ROWS as int));
        assert(addrs[k] == cell_addr(base, k));
        match a.qword(cell_addr(base, k)) {
            Some(v) => {
                assert(a.name(v) == b.name(v));
                if in_code(a.ranges, v) {
                    let row = pre + "│   #"@ + left_aligned(decimal(frame as nat), 2) + " "@
                        + hex16(v) + "  "@ + a.name_or(v, Seq::empty()) + "   @ rp+"@ + decimal(
                        (8 * k) as nat,
                    ) + "\n"@;
                    lemma_same_return_rows(row, a, b, base, top, k + 1, frame + 1);
                } else {
                    let row = pre + "│        "@ + hex16(v) + "  (data)        @ rp+"@ + decimal(
                        (8 * k) as nat,
                    ) + "\n"@;
                    lemma_same_return_rows(row, a, b, base, top, k + 1, frame);
                }
            },
            None => {},
        }
    }
}

proof fn lemma_same_var_rows(pre: Seq<char>, a: Scene, b: Scene, up: u64, vars: Seq<ForthVar>)
    requires
        alike(a, b, vars.map_values(|v: ForthVar| var_addr(up, v))),
    ensures
        var_rows_on(pre, a, up, vars) == var_rows_on(pre, b, up, vars),
    decreases vars.len(),
{
    if vars.len() > 0 {
        let f = |v: ForthVar| var_addr(up, v);
        let addrs = vars.map_values(f);
        let init = vars.drop_last().map_values(f);
        assert(addrs[vars.len() - 1] == var_addr(up, vars.last()));
        assert forall|i: int| 0 <= i < init.len() implies a.qword(#[trigger] init[i]) == b.qword(
            init[i],
        ) by {
            assert(init[i] == addrs[i]);
        }
        lemma_same_var_rows(pre, a, b, up, vars.drop_last());
    }
}

proof fn lemma_same_raw_rows(pre: Seq<char>, a: Scene, b: Scene, base: u64, k: int)
    requires
        0 <= k,
        alike(a, b, cell_addrs(base, RAW_ROWS as nat)),
    ensures
        raw_rows_on(pre, a, base, k) == raw_rows_on(pre, b, base, k),
    decreases RAW_ROWS - k,
{
    lemma_same_names(a, b);
    if k < RAW_ROWS {
        let addrs = cell_addrs(base, RAW_ROWS as nat);
        assert(addrs[k] == cell_addr(base, k));
        match a.qword(cell_addr(base, k)) {
            Some(v) => {
                assert(a.name(v) == b.name(v));
                let at = pre + "│   [rsp+"@ + right_aligned(decimal((8 * k) as nat), 3);
                let row = at + "] "@ + hex16(v) + "  "@ + a.name_or(v, Seq::empty()) + "\n"@;
                lemma_same_raw_rows(row, a, b, base, k + 1);
            },
            None => {},
        }
    }
}

proof fn lemma_same_data_stack(
    pre: Seq<char>,
    a: Scene,
    b: Scene,
    regs: CrashRegs,
    fi: ForthDumpInfo,
)
    requires
        fi.dstack_low <= regs.rbp <= fi.dstack_top + 8 ==> alike(a, b, data_plan(regs, fi)),
    ensures
        data_stack_on(pre, a, regs, fi) == data_stack_on(pre, b, regs, fi),
{
    if fi.dstack_low <= regs.rbp <= fi.dstack_top + 8 {
        let has_tos = regs.rbp <= fi.dstack_top;
        let depth = if has_tos {
            (fi.dstack_top - regs.rbp) / 8 + 1
        } else {
            0
        };
        let head = pre + "│\n"@ + "│ DATA STACK  rbp="@ + hex16(regs.rbp) + "  depth="@ + decimal(
            depth as nat,
        ) + "\n"@;
        let tos = if has_tos {
            head + "│   TOS   "@ + hex16(regs.rax) + "   (rax)\n"@
        } else {
            head
        };
        lemma_same_data_rows(tos, a, b, regs.rbp, fi.dstack_top, 0);
    }
}

proof fn lemma_same_return_stack(
    pre: Seq<char>,
    a: Scene,
    b: Scene,
    regs: CrashRegs,
    fi: ForthDumpInfo,
)
    requires
        fi.rstack_low <= regs.rsp <= fi.rstack_top ==> alike(a, b, return_plan(regs, fi)),
    ensures
        return_stack_on(pre, a, regs, fi) == return_stack_on(pre, b, regs, fi),
{
    if fi.rstack_low <= regs.rsp <= fi.rstack_top {
        let head = pre + "│\n"@ + "│ RETURN STACK  rsp="@ + hex16(regs.rsp) + "  top="@ + hex16(
            fi.rstack_top,
        ) + "\n"@;
        lemma_same_return_rows(head, a, b, regs.rsp, fi.rstack_top, 0, 0);
    }
}

proof fn lemma_same_vars(pre: Seq<char>, a: Scene, b: Scene, regs: CrashRegs, fi: ForthDumpInfo)
    requires
        regs.rbx == fi.user_base ==> alike(a, b, vars_plan(regs, fi)),
    ensures
        vars_on(pre, a, regs, fi) == vars_on(pre, b, regs, fi),
{
    if regs.rbx == fi.user_base {
        let head = pre + "│\n"@ + "│ USER VARS  up="@ + hex16(regs.rbx) + "\n"@;
        lemma_same_var_rows(head, a, b, regs.rbx, fi.vars@);
    }
}

/// A dump depends on memory only at the planned addresses: whoever reads those has read enough.
/// Nor does it depend on the order of the symbol table.
pub proof fn planned_reads_suffice(
    a: Scene,
    b: Scene,
    info: Option<ForthDumpInfo>,
    regs: CrashRegs,
    code: u32,
    access: Option<(u32, u64)>,
)
    requires
        alike(a, b, planned(info, regs)),
    ensures
        dump_text(a, info, regs, code, access) == dump_text(b, info, regs, code, access),
{
    lemma_same_names(a, b);
    assert(a.name(regs.rip) == b.name(regs.rip));
    match access {
        Some((_, addr)) => {
            assert(a.name(addr) == b.name(addr));
        },
        None => {},
    }
    let addrs = planned(info, regs);
    match info {
        Some(fi) => {
            let data = data_plan(regs, fi);
            let ret = return_plan(regs, fi);
            let vars = vars_plan(regs, fi);
            lemma_alike_part(a, b, Seq::empty(), data, ret + vars, addrs);
            lemma_alike_part(a, b, data, ret, vars, addrs);
            lemma_alike_part(a, b, data + ret, vars, Seq::empty(), addrs);
            let d = head_on(Seq::empty(), a, regs, code, access);
            lemma_same_data_stack(d, a, b, regs, fi);
            let r = data_stack_on(d, a, regs, fi);
            lemma_same_return_stack(r, a, b, regs, fi);
            lemma_same_vars(return_stack_on(r, a, regs, fi), a, b, regs, fi);
        },
        None => {
            let c = cpu_on(head_on(Seq::empty(), a, regs, code, access), regs);
            lemma_same_raw_rows(
                c + "│\n"@ + "│ raw stack (32 qwords from rsp):\n"@,
                a,
                b,
                regs.rsp,
                0,
            );
        },
    }
}

proof fn lemma_alike_part(
    a: Scene,
    b: Scene,
    before: Seq<u64>,
    part: Seq<u64>,
    after: Seq<u64>,
    whole: Seq<u64>,
)
    requires
        alike(a, b, whole),
        whole =~= before + part + after,
    ensures
        alike(a, b, part),
{
    assert forall|i: int| 0 <= i < part.len() implies a.qword(#[trigger] part[i]) == b.qword(
        part[i],
    ) by {
        assert(part[i] == whole[before.len() + i]);
    }
}

/// What the dump is made from, as the executable code holds it.
struct Source<'a> {
    symbols: &'a SymbolTable,
    ranges: &'a Vec<CodeRange>,
    cells: &'a [Cell],
}

impl<'a> Source<'a> {
    spec fn scene(&self) -> Scene {
        Scene { syms: self.symbols@, ranges: self.ranges@, cells: self.cells@ }
    }

    fn qword(&self, addr: u64) -> (r: Option<u64>)
        ensures
            r == self.scene().qword(addr),
    {
        read_qword(self.cells, addr)
    }

    /// Appends the name of `addr`, or `other` where it has none.
    fn push_name(&self, out: &mut String, addr: u64, other: &str)
        requires
            sorted(self.symbols@),
        ensures
            final(out)@ == old(out)@ + self.scene().name_or(addr, other@),
    {
        match symbol_string(self.symbols, self.ranges, addr) {
            Some(s) => out.append(s.as_str()),
            None => out.append(other),
        }
    }
}

proof fn lemma_empty_literal()
    ensures
        ""@ == Seq::<char>::empty(),
{
    reveal_strlit("");
}

/// The qword at `addr` among the cells that were read; only aligned qwords are.
pub fn read_qword(cells: &[Cell], addr: u64) -> (r: Option<u64>)
    ensures
        r == qword_at(cells@, addr),
{
    if addr % 8 != 0 {
        return None;
    }
    let mut n: usize = cells.len();
    assert(cells@.take(n as int) =~= cells@);
    while n > 0
        invariant
            n <= cells@.len(),
            addr % 8 == 0,
            value_at(cells@, addr) == value_at(cells@.take(n as int), addr),
        decreases n,
    {
        assert(cells@.take(n as int).drop_last() =~= cells@.take(n - 1));
        if cells[n - 1].addr == addr {
            return Some(cells[n - 1].value);
        }
        n -= 1;
    }
    None
}

fn push_head(out: &mut String, v: &Source, regs: &CrashRegs, code: u32, access: Option<(u32, u64)>)
    requires
        sorted(v.symbols@),
    ensures
        final(out)@ == head_on(old(out)@, v.scene(), *regs, code, access),
{
    proof {
        lemma_empty_literal();
    }
    out.append("┌─── WF64 Forth crash dump ──────────────────────────────────────────────\n");
    out.append("│ exception : 0x");
    push_hex8(out, code);
    out.append("  ");
    out.append(exception_kind(code));
    out.append("\n");
    out.append("│ at word   : ");
    push_hex16(out, regs.rip);
    out.append("  ");
    v.push_name(out, regs.rip, "<?>");
    out.append("\n");
    if let Some((kind, addr)) = access {
        out.append("│ access    : ");
        let op = match kind {
            0 => "read",
            1 => "write",
            8 => "execute",
            _ => "?",
        };
        out.append(op);
        out.append(" at ");
        push_hex16(out, addr);
        out.append("  ");
        v.push_name(out, addr, "");
        out.append("\n");
    }
}

fn push_unreadable(out: &mut String, addr: u64)
    ensures
        final(out)@ == unreadable_on(old(out)@, addr),
{
    out.append("│   <unreadable @ ");
    push_hex16(out, addr);
    out.append(">\n");
}

/// Appends the cells of the data stack, and says how many were shown.
fn push_data_rows(out: &mut String, v: &Source, base: u64, top: u64) -> (shown: u64)
    ensures
        final(out)@ == data_rows_on(old(out)@, v.scene(), base, top, 0),
        shown == data_shown(v.scene(), base, top, 0),
{
    let mut k: u64 = 0;
    while k < DATA_ROWS && base < top && 8 * k < top - base
        invariant
            k <= DATA_ROWS,
            data_rows_on(old(out)@, v.scene(), base, top, 0) == data_rows_on(
                out@,
                v.scene(),
                base,
                top,
                k as int,
            ),
            data_shown(v.scene(), base, top, 0) == data_shown(v.scene(), base, top, k as int),
        decreases DATA_ROWS - k,
    {
        let addr: u64 = base + 8 * k;
        match v.qword(addr) {
            Some(value) => {
                let mut num = String::new();
                push_decimal(&mut num, k);
                assert(num@ =~= decimal(k as nat));
                out.append("│   NOS+");
                push_left_aligned(out, num.as_str(), 2);
                out.append(" ");
                push_hex16(out, value);
                out.append("\n");
            },
            None => {
                push_unreadable(out, addr);
                return k;
            },
        }
        k += 1;
    }
    k
}

fn push_data_stack(out: &mut String, v: &Source, regs: &CrashRegs, fi: &ForthDumpInfo)
    ensures
        final(out)@ == data_stack_on(old(out)@, v.scene(), *regs, *fi),
{
    out.append("│\n");
    if fi.dstack_low <= regs.rbp && (regs.rbp <= fi.dstack_top || regs.rbp - fi.dstack_top <= 8) {
        let has_tos = regs.rbp <= fi.dstack_top;
        let mem_cells: u64 = if has_tos {
            (fi.dstack_top - regs.rbp) / 8
        } else {
            0
        };
        out.append("│ DATA STACK  rbp=");
        push_hex16(out, regs.rbp);
        out.append("  depth=");
        let depth: u64 = if has_tos {
            mem_cells + 1
        } else {
            0
        };
        push_decimal(out, depth);
        out.append("\n");
        if has_tos {
            out.append("│   TOS   ");
            push_hex16(out, regs.rax);
            out.append("   (rax)\n");
        }
        let shown: u64 = push_data_rows(out, v, regs.rbp, fi.dstack_top);
        if mem_cells > shown {
            out.append("│   … ");
            push_decimal(out, mem_cells - shown);
            out.append(" more\n");
        }
    } else {
        out.append("│ DATA STACK  rbp=");
        push_hex16(out, regs.rbp);
        out.append("  (not in data-stack region)\n");
    }
}

/// Appends the cells of the return stack, and says how many of them are frames.
fn push_return_rows(out: &mut String, v: &Source, base: u64, top: u64) -> (found: u64)
    requires
        sorted(v.symbols@),
        base <= top,
    ensures
        final(out)@ == return_rows_on(old(out)@, v.scene(), base, top, 0, 0),
        found == frames(v.scene(), base, top, 0, 0),
{
    proof {
        lemma_empty_literal();
    }
    let mut k: u64 = 0;
    let mut frame: u64 = 0;
    while k < RETURN_ROWS && 8 * k < top - base
        invariant
            base <= top,
            sorted(v.symbols@),
            ""@ == Seq::<char>::empty(),
            frame <= k <= RETURN_ROWS,
            return_rows_on(old(out)@, v.scene(), base, top, 0, 0) == return_rows_on(
                out@,
                v.scene(),
                base,
                top,
                k as int,
                frame as int,
            ),
            frames(v.scene(), base, top, 0, 0) == frames(
                v.scene(),
                base,
                top,
                k as int,
                frame as int,
            ),
        decreases RETURN_ROWS - k,
    {
        let addr: u64 = base + 8 * k;
        match v.qword(addr) {
            Some(value) => {
                if range_holds(v.ranges, value) {
                    let mut num = String::new();
                    push_decimal(&mut num, frame);
                    assert(num@ =~= decimal(frame as nat));
                    out.append("│   #");
                    push_left_aligned(out, num.as_str(), 2);
                    out.append(" ");
                    push_hex16(out, value);
                    out.append("  ");
                    v.push_name(out, value, "");
                    out.append("   @ rp+");
                    push_decimal(out, 8 * k);
                    out.append("\n");
                    frame += 1;
                } else {
                    out.append("│        ");
                    push_hex16(out, value);
                    out.append("  (data)        @ rp+");
                    push_decimal(out, 8 * k);
                    out.append("\n");
                }
            },
            None => {
                push_unreadable(out, addr);
                return frame;
            },
        }
        k += 1;
    }
    frame
}

fn push_return_stack(out: &mut String, v: &Source, regs: &CrashRegs, fi: &ForthDumpInfo)
    requires
        sorted(v.symbols@),
    ensures
        final(out)@ == return_stack_on(old(out)@, v.scene(), *regs, *fi),
{
    out.append("│\n");
    if fi.rstack_low <= regs.rsp && regs.rsp <= fi.rstack_top {
        out.append("│ RETURN STACK  rsp=");
        push_hex16(out, regs.rsp);
        out.append("  top=");
        push_hex16(out, fi.rstack_top);
        out.append("\n");
        let found: u64 = push_return_rows(out, v, regs.rsp, fi.rstack_top);
        if found == 0 {
            out.append("│   (no Forth return addresses found)\n");
        }
    } else {
        out.append("│ RETURN STACK  rsp=");
        push_hex16(out, regs.rsp);
        out.append("  (not in return-stack region)\n");
    }
}

fn push_vars(out: &mut String, v: &Source, regs: &CrashRegs, fi: &ForthDumpInfo)
    ensures
        final(out)@ == vars_on(old(out)@, v.scene(), *regs, *fi),
{
    out.append("│\n");
    if regs.rbx == fi.user_base {
        out.append("│ USER VARS  up=");
        push_hex16(out, regs.rbx);
        out.append("\n");
        let ghost start = out@;
        let mut i: usize = 0;
        assert(fi.vars@.take(0) =~= Seq::empty());
        while i < fi.vars.len()
            invariant
                i <= fi.vars@.len(),
                out@ == var_rows_on(start, v.scene(), regs.rbx, fi.vars@.take(i as int)),
            decreases fi.vars@.len() - i,
        {
            assert(fi.vars@.take(i + 1).drop_last() =~= fi.vars@.take(i as int));
            out.append("│   ");
            push_left_aligned(out, fi.vars[i].name, 10);
            match v.qword(regs.rbx.wrapping_add(fi.vars[i].offset)) {
                Some(val) => {
                    out.append(" = ");
                    push_hex16(out, val);
                    out.append("\n");
                },
                None => out.append(" = <unreadable>\n"),
            }
            i += 1;
        }
        assert(fi.vars@.take(i as int) =~= fi.vars@);
    } else {
        out.append("│ USER VARS  rbx=");
        push_hex16(out, regs.rbx);
        out.append("  (≠ user base ");
        push_hex16(out, fi.user_base);
        out.append("; skipped)\n");
    }
}

fn push_reg(out: &mut String, label: &str, value: u64)
    ensures
        final(out)@ == old(out)@ + label@ + hex16(value),
{
    out.append(label);
    push_hex16(out, value);
}

fn push_cpu(out: &mut String, r: &CrashRegs)
    ensures
        final(out)@ == cpu_on(old(out)@, *r),
{
    out.append("│\n");
    push_reg(out, "│ CPU  rax=", r.rax);
    push_reg(out, " rbx=", r.rbx);
    push_reg(out, " rcx=", r.rcx);
    out.append("\n");
    push_reg(out, "│      rdx=", r.rdx);
    push_reg(out, " rsi=", r.rsi);
    push_reg(out, " rdi=", r.rdi);
    out.append("\n");
    push_reg(out, "│      rbp=", r.rbp);
    push_reg(out, " rsp=", r.rsp);
    push_reg(out, " rip=", r.rip);
    out.append("\n");
    push_reg(out, "│      r8 =", r.r8);
    push_reg(out, " r9 =", r.r9);
    push_reg(out, " r10=", r.r10);
    out.append("\n");
    push_reg(out, "│      r11=", r.r11);
    push_reg(out, " r12=", r.r12);
    push_reg(out, " r13=", r.r13);
    out.append("\n");
    push_reg(out, "│      r14=", r.r14);
    push_reg(out, " r15=", r.r15);
    out.append(" flags=");
    push_hex8(out, r.eflags);
    out.append("\n");
}

fn push_raw(out: &mut String, v: &Source, regs: &CrashRegs)
    requires
        sorted(v.symbols@),
    ensures
        final(out)@ == raw_on(old(out)@, v.scene(), *regs),
{
    proof {
        lemma_empty_literal();
    }
    out.append("│\n");
    out.append("│ raw stack (32 qwords from rsp):\n");
    let ghost start = out@;
    let mut k: u64 = 0;
    while k < RAW_ROWS
        invariant
            sorted(v.symbols@),
            ""@ == Seq::<char>::empty(),
            start == old(out)@ + "│\n"@ + "│ raw stack (32 qwords from rsp):\n"@,
            k <= RAW_ROWS,
            raw_rows_on(start, v.scene(), regs.rsp, 0) == raw_rows_on(
                out@,
                v.scene(),
                regs.rsp,
                k as int,
            ),
        decreases RAW_ROWS - k,
    {
        let mut num = String::new();
        push_decimal(&mut num, 8 * k);
        assert(num@ =~= decimal((8 * k) as nat));
        out.append("│   [rsp+");
        push_right_aligned(out, num.as_str(), 3);
        match v.qword(regs.rsp.wrapping_add(8 * k)) {
            Some(value) => {
                out.append("] ");
                push_hex16(out, value);
                out.append("  ");
                v.push_name(out, value, "");
                out.append("\n");
            },
            None => {
                out.append("] <unreadable>\n");
                return;
            },
        }
        k += 1;
    }
}

/// Renders the crash: the faulting word, then the data stack, the return-stack word trace, the
/// key user variables, and only then the raw CPU registers and stack. `cells` is the memory that
/// could be read; what is missing there shows as unreadable. Sorts the symbol table where that is
/// still to be done.
pub fn format_forth_dump(
    d: &mut Dumper,
    regs: &CrashRegs,
    code: u32,
    access: Option<(u32, u64)>,
    cells: &[Cell],
) -> (text: String)
    requires
        old(d).wf(),
    ensures
        text@ == dump_text(old(d).scene(cells@), old(d).forth_info, *regs, code, access),
        final(d).wf(),
        same_symbols(old(d).symbols@, final(d).symbols@),
        final(d).code_ranges == old(d).code_ranges,
        final(d).forth_info == old(d).forth_info,
        final(d).installed == old(d).installed,
{
    d.symbols.ensure_sorted();
    proof {
        planned_reads_suffice(
            old(d).scene(cells@),
            d.scene(cells@),
            d.forth_info,
            *regs,
            code,
            access,
        );
    }
    let v = Source { symbols: &d.symbols, ranges: &d.code_ranges, cells };
    let mut out = String::new();
    push_head(&mut out, &v, regs, code, access);
    match &d.forth_info {
        Some(fi) => {
            push_data_stack(&mut out, &v, regs, fi);
            push_return_stack(&mut out, &v, regs, fi);
            push_vars(&mut out, &v, regs, fi);
            push_cpu(&mut out, regs);
        },
        None => {
            push_cpu(&mut out, regs);
            push_raw(&mut out, &v, regs);
        },
    }
    out.append("└───────────────────────────────────────────────────────────────────────\n");
    out
}

fn push_cell_addrs(addrs: &mut Vec<u64>, base: u64, n: u64)
    requires
        n <= RETURN_ROWS,
    ensures
        final(addrs)@ == old(addrs)@ + cell_addrs(base, n as nat),
{
    let mut k: u64 = 0;
    assert(addrs@ =~= old(addrs)@ + cell_addrs(base, 0));
    while k < n
        invariant
            k <= n <= RETURN_ROWS,
            addrs@ == old(addrs)@ + cell_addrs(base, k as nat),
        decreases n - k,
    {
        addrs.push(base.wrapping_add(8 * k));
        k += 1;
        assert(addrs@ =~= old(addrs)@ + cell_addrs(base, k as nat));
    }
}

fn count_rows(base: u64, top: u64, max: u64) -> (n: u64)
    ensures
        n == stack_rows(base, top, max as int),
        n <= max,
{
    if base >= top {
        0
    } else {
        let cells: u64 = (top - base) / 8 + if (top - base) % 8 == 0 {
            0
        } else {
            1
        };
        if cells < max {
            cells
        } else {
            max
        }
    }
}

/// The addresses that the dump of a crash with these registers may read.
pub fn dump_addresses(d: &Dumper, regs: &CrashRegs) -> (addrs: Vec<u64>)
    ensures
        addrs@ == planned(d.forth_info, *regs),
{
    let mut addrs: Vec<u64> = Vec::new();
    match &d.forth_info {
        Some(fi) => {
            if fi.dstack_low <= regs.rbp && (regs.rbp <= fi.dstack_top || regs.rbp - fi.dstack_top
                <= 8) {
                let n: u64 = count_rows(regs.rbp, fi.dstack_top, DATA_ROWS);
                push_cell_addrs(&mut addrs, regs.rbp, n);
            }
            assert(addrs@ =~= data_plan(*regs, *fi));
            if fi.rstack_low <= regs.rsp && regs.rsp <= fi.rstack_top {
                let n: u64 = count_rows(regs.rsp, fi.rstack_top, RETURN_ROWS);
                push_cell_addrs(&mut addrs, regs.rsp, n);
            }
            let ghost stacks = data_plan(*regs, *fi) + return_plan(*regs, *fi);
            assert(addrs@ =~= stacks);
            if regs.rbx == fi.user_base {
                let ghost vars = vars_plan(*regs, *fi);
                let mut i: usize = 0;
                assert(addrs@ =~= stacks + vars.take(0));
                while i < fi.vars.len()
                    invariant
                        i <= fi.vars@.len(),
                        vars == fi.vars@.map_values(|v: ForthVar| var_addr(regs.rbx, v)),
                        addrs@ == stacks + vars.take(i as int),
                    decreases fi.vars@.len() - i,
                {
                    addrs.push(regs.rbx.wrapping_add(fi.vars[i].offset));
                    i += 1;
                    assert(addrs@ =~= stacks + vars.take(i as int));
                }
                assert(vars.take(i as int) =~= vars);
            }
            assert(addrs@ =~= planned(d.forth_info, *regs));
        },
        None => {
            push_cell_addrs(&mut addrs, regs.rsp, RAW_ROWS);
            assert(addrs@ =~= planned(d.forth_info, *regs));
        },
    }
    addrs
}

} // verus!
