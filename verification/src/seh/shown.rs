//! What a crash dump shows, told from its text: which numbers stand behind which labels.

use vstd::prelude::*;
use vstd::string::*;

use crate::seh::dump::{
    cpu_on, data_plan, data_rows_on, data_shown, data_stack_on, dump_text, frames, head_on, planned,
    qword_at, raw_on, raw_rows_on, return_plan, return_rows_on, return_stack_on, var_addr,
    var_rows_on, vars_on, vars_plan, Cell, Scene,
};
use crate::seh::{
    in_code, kind_text, symbol_text, CrashRegs, Dumper, ForthDumpInfo, ForthVar,
};
use crate::text::{
    decimal, has_part, hex16, hex8, hex_digits_spell_the_number, is_hex_of, left_aligned, part_at,
    right_aligned,
};

verus! {

/// `s` starts with `pre`.
pub open spec fn extends(pre: Seq<char>, s: Seq<char>) -> bool {
    part_at(s, pre, 0)
}

/// At `at` the text has `label`, and behind it sixteen digits that spell `v`.
pub open spec fn shows(text: Seq<char>, at: int, label: Seq<char>, v: int) -> bool {
    let n = at + label.len();
    &&& part_at(text, label, at)
    &&& n + 16 <= text.len()
    &&& is_hex_of(text.subrange(n, n + 16), v)
}

/// At `at` the text has `label`, and behind it eight digits that spell `v`.
pub open spec fn shows8(text: Seq<char>, at: int, label: Seq<char>, v: int) -> bool {
    let n = at + label.len();
    &&& part_at(text, label, at)
    &&& n + 8 <= text.len()
    &&& is_hex_of(text.subrange(n, n + 8), v)
}

/// The text has a row that starts with `label`, with sixteen digits behind it that spell `v`, and
/// goes on with `rest`.
pub open spec fn shows_row(text: Seq<char>, label: Seq<char>, v: int, rest: Seq<char>) -> bool {
    exists|at: int| #[trigger]
        shows(text, at, label, v) && part_at(text, rest, behind(at, label))
}

/// The place behind a label at `at` and its sixteen digits.
pub open spec fn behind(at: int, label: Seq<char>) -> int {
    at + label.len() + 16
}

proof fn lemma_prefix(pre: Seq<char>, more: Seq<char>, text: Seq<char>)
    requires
        extends(pre + more, text),
    ensures
        extends(pre, text),
{
    assert(text.subrange(0, pre.len() as int) =~= (pre + more).subrange(0, pre.len() as int));
    assert((pre + more).subrange(0, pre.len() as int) =~= pre);
}

proof fn lemma_part(pre: Seq<char>, part: Seq<char>, text: Seq<char>)
    requires
        extends(pre + part, text),
    ensures
        part_at(text, part, pre.len() as int),
        extends(pre, text),
{
    lemma_prefix(pre, part, text);
    let (m, n) = (pre.len() as int, (pre + part).len() as int);
    assert(text.subrange(m, n) =~= text.subrange(0, n).subrange(m, n));
    assert((pre + part).subrange(m, n) =~= part);
}

proof fn lemma_shows(pre: Seq<char>, label: Seq<char>, v: u64, text: Seq<char>)
    requires
        extends(pre + label + hex16(v), text),
    ensures
        shows(text, pre.len() as int, label, v as int),
        extends(pre, text),
        (pre + label + hex16(v)).len() == behind(pre.len() as int, label),
{
    hex_digits_spell_the_number(v, 0);
    lemma_part(pre + label, hex16(v), text);
    lemma_part(pre, label, text);
}

proof fn lemma_shows8(pre: Seq<char>, label: Seq<char>, v: u32, text: Seq<char>)
    requires
        extends(pre + label + hex8(v), text),
    ensures
        shows8(text, pre.len() as int, label, v as int),
        extends(pre, text),
{
    hex_digits_spell_the_number(0, v);
    lemma_part(pre + label, hex8(v), text);
    lemma_part(pre, label, text);
}

/// At `b` the text has the registers of the CPU: behind the label of each register the digits of
/// that register, three to a line, and behind the last the flags.
#[verifier::opaque]
pub open spec fn shows_cpu(text: Seq<char>, b: int, c: CrashRegs) -> bool {
    let rax = b;
    let rbx = behind(rax, "│ CPU  rax="@);
    let rcx = behind(rbx, " rbx="@);
    let rdx = behind(rcx, " rcx="@) + "\n"@.len();
    let rsi = behind(rdx, "│      rdx="@);
    let rdi = behind(rsi, " rsi="@);
    let rbp = behind(rdi, " rdi="@) + "\n"@.len();
    let rsp = behind(rbp, "│      rbp="@);
    let rip = behind(rsp, " rsp="@);
    let r8 = behind(rip, " rip="@) + "\n"@.len();
    let r9 = behind(r8, "│      r8 ="@);
    let r10 = behind(r9, " r9 ="@);
    let r11 = behind(r10, " r10="@) + "\n"@.len();
    let r12 = behind(r11, "│      r11="@);
    let r13 = behind(r12, " r12="@);
    let r14 = behind(r13, " r13="@) + "\n"@.len();
    let r15 = behind(r14, "│      r14="@);
    let flags = behind(r15, " r15="@);
    &&& shows(text, rax, "│ CPU  rax="@, c.rax as int)
    &&& shows(text, rbx, " rbx="@, c.rbx as int)
    &&& shows(text, rcx, " rcx="@, c.rcx as int)
    &&& shows(text, rdx, "│      rdx="@, c.rdx as int)
    &&& shows(text, rsi, " rsi="@, c.rsi as int)
    &&& shows(text, rdi, " rdi="@, c.rdi as int)
    &&& shows(text, rbp, "│      rbp="@, c.rbp as int)
    &&& shows(text, rsp, " rsp="@, c.rsp as int)
    &&& shows(text, rip, " rip="@, c.rip as int)
    &&& shows(text, r8, "│      r8 ="@, c.r8 as int)
    &&& shows(text, r9, " r9 ="@, c.r9 as int)
    &&& shows(text, r10, " r10="@, c.r10 as int)
    &&& shows(text, r11, "│      r11="@, c.r11 as int)
    &&& shows(text, r12, " r12="@, c.r12 as int)
    &&& shows(text, r13, " r13="@, c.r13 as int)
    &&& shows(text, r14, "│      r14="@, c.r14 as int)
    &&& shows(text, r15, " r15="@, c.r15 as int)
    &&& shows8(text, flags, " flags="@, c.eflags as int)
}

proof fn lemma_cpu(pre: Seq<char>, r: CrashRegs, text: Seq<char>)
    requires
        extends(cpu_on(pre, r), text),
    ensures
        shows_cpu(text, (pre.len() + "│\n"@.len()) as int, r),
        extends(pre, text),
{
    reveal(shows_cpu);
    let s0 = pre + "│\n"@;
    let s1 = s0 + "│ CPU  rax="@ + hex16(r.rax);
    let s2 = s1 + " rbx="@ + hex16(r.rbx);
    let s3 = s2 + " rcx="@ + hex16(r.rcx);
    let s4 = s3 + "\n"@;
    let s5 = s4 + "│      rdx="@ + hex16(r.rdx);
    let s6 = s5 + " rsi="@ + hex16(r.rsi);
    let s7 = s6 + " rdi="@ + hex16(r.rdi);
    let s8 = s7 + "\n"@;
    let s9 = s8 + "│      rbp="@ + hex16(r.rbp);
    let s10 = s9 + " rsp="@ + hex16(r.rsp);
    let s11 = s10 + " rip="@ + hex16(r.rip);
    let s12 = s11 + "\n"@;
    let s13 = s12 + "│      r8 ="@ + hex16(r.r8);
    let s14 = s13 + " r9 ="@ + hex16(r.r9);
    let s15 = s14 + " r10="@ + hex16(r.r10);
    let s16 = s15 + "\n"@;
    let s17 = s16 + "│      r11="@ + hex16(r.r11);
    let s18 = s17 + " r12="@ + hex16(r.r12);
    let s19 = s18 + " r13="@ + hex16(r.r13);
    let s20 = s19 + "\n"@;
    let s21 = s20 + "│      r14="@ + hex16(r.r14);
    let s22 = s21 + " r15="@ + hex16(r.r15);
    let last = s22 + " flags="@ + hex8(r.eflags);
    lemma_prefix(last, "\n"@, text);
    lemma_shows8(s22, " flags="@, r.eflags, text);
    lemma_shows(s21, " r15="@, r.r15, text);
    lemma_shows(s20, "│      r14="@, r.r14, text);
    lemma_prefix(s19, "\n"@, text);
    lemma_shows(s18, " r13="@, r.r13, text);
    lemma_shows(s17, " r12="@, r.r12, text);
    lemma_shows(s16, "│      r11="@, r.r11, text);
    lemma_prefix(s15, "\n"@, text);
    lemma_shows(s14, " r10="@, r.r10, text);
    lemma_shows(s13, " r9 ="@, r.r9, text);
    lemma_shows(s12, "│      r8 ="@, r.r8, text);
    lemma_prefix(s11, "\n"@, text);
    lemma_shows(s10, " rip="@, r.rip, text);
    lemma_shows(s9, " rsp="@, r.rsp, text);
    lemma_shows(s8, "│      rbp="@, r.rbp, text);
    lemma_prefix(s7, "\n"@, text);
    lemma_shows(s6, " rdi="@, r.rdi, text);
    lemma_shows(s5, " rsi="@, r.rsi, text);
    lemma_shows(s4, "│      rdx="@, r.rdx, text);
    lemma_prefix(s3, "\n"@, text);
    lemma_shows(s2, " rcx="@, r.rcx, text);
    lemma_shows(s1, " rbx="@, r.rbx, text);
    lemma_shows(s0, "│ CPU  rax="@, r.rax, text);
    lemma_prefix(pre, "│\n"@, text);
}

proof fn lemma_row(pre: Seq<char>, label: Seq<char>, v: u64, rest: Seq<char>, text: Seq<char>)
    requires
        extends(pre + label + hex16(v) + rest, text),
    ensures
        shows_row(text, label, v as int, rest),
        extends(pre, text),
{
    lemma_part(pre + label + hex16(v), rest, text);
    lemma_shows(pre, label, v, text);
}

proof fn lemma_has_part(pre: Seq<char>, part: Seq<char>, text: Seq<char>)
    requires
        extends(pre + part, text),
    ensures
        has_part(text, part),
        extends(pre, text),
{
    lemma_part(pre, part, text);
}

/// The cells at `base` and above it can be read, up to but without the `n`th.
pub open spec fn readable_to(sc: Scene, base: u64, n: int) -> bool {
    forall|i: int| 0 <= i < n ==> #[trigger] cell_at(sc, base, i) is Some
}

/// What was read of the `i`th cell from `base` up.
pub open spec fn cell_at(sc: Scene, base: u64, i: int) -> Option<u64> {
    sc.qword(((base + 8 * i) % 0x1_0000_0000_0000_0000) as u64)
}

/// The rows of a stack end with the `n`th cell: it is the first that cannot be read, or the stack
/// or the number of rows ends there.
pub open spec fn rows_end(sc: Scene, base: u64, top: u64, max: int, n: int) -> bool {
    &&& 0 <= n <= max
    &&& readable_to(sc, base, n)
    &&& n > 0 ==> base + 8 * (n - 1) < top
    &&& n == max || base + 8 * n >= top || cell_at(sc, base, n) is None
}

/// The label of the `k`th cell of the data stack.
pub open spec fn data_label(k: int) -> Seq<char> {
    "│   NOS+"@ + left_aligned(decimal(k as nat), 2) + " "@
}

#[verifier::spinoff_prover]
#[verifier::rlimit(60)]
proof fn lemma_data_rows(
    pre: Seq<char>,
    sc: Scene,
    base: u64,
    top: u64,
    k: int,
    text: Seq<char>,
)
    requires
        0 <= k,
        extends(data_rows_on(pre, sc, base, top, k), text),
    ensures
        extends(pre, text),
        forall|j: int|
            k <= j < 16 && base + 8 * j < top && (forall|i: int|
                k <= i < j ==> #[trigger] cell_at(sc, base, i) is Some)
                ==> match #[trigger] cell_at(sc, base, j) {
                Some(v) => shows_row(text, data_label(j), v as int, "\n"@),
                None => shows_row(text, "│   <unreadable @ "@, base + 8 * j, ">\n"@),
            },
    decreases 16 - k,
{
    if k < 16 && base + 8 * k < top {
        match cell_at(sc, base, k) {
            Some(v) => {
                let row = pre + "│   NOS+"@ + left_aligned(decimal(k as nat), 2) + " "@ + hex16(v)
                    + "\n"@;
                lemma_data_rows(row, sc, base, top, k + 1, text);
                assert(row =~= pre + data_label(k) + hex16(v) + "\n"@);
                lemma_row(pre, data_label(k), v, "\n"@, text);
            },
            None => {
                let addr = (base + 8 * k) as u64;
                lemma_row(pre, "│   <unreadable @ "@, addr, ">\n"@, text);
            },
        }
    }
}

proof fn lemma_data_shown(sc: Scene, base: u64, top: u64, k: int, n: int)
    requires
        0 <= k <= n,
        rows_end(sc, base, top, 16, n),
    ensures
        data_shown(sc, base, top, k) == n,
    decreases n - k,
{
    if k < n {
        assert(cell_at(sc, base, k) is Some);
        lemma_data_shown(sc, base, top, k + 1, n);
    }
}

/// The depth of a data stack whose pointer is `sp`: the cells between it and the top, and the one
/// in the register. An empty stack leaves its pointer above the top.
pub open spec fn depth(sp: u64, top: u64) -> nat {
    if sp <= top {
        ((top - sp) / 8 + 1) as nat
    } else {
        0
    }
}

/// The text tells the data stack: where it stands and how deep it is, the top of it in RAX, then
/// its cells from the pointer up, sixteen at most and up to the first that cannot be read, and how
/// many more there are.
#[verifier::opaque]
pub open spec fn tells_data_stack(
    text: Seq<char>,
    sc: Scene,
    regs: CrashRegs,
    fi: ForthDumpInfo,
) -> bool {
    let (sp, top) = (regs.rbp, fi.dstack_top);
    if fi.dstack_low <= sp <= top + 8 {
        &&& shows_row(
            text,
            "│ DATA STACK  rbp="@,
            sp as int,
            "  depth="@ + decimal(depth(sp, top)) + "\n"@,
        )
        &&& sp <= top ==> shows_row(text, "│   TOS   "@, regs.rax as int, "   (rax)\n"@)
        &&& forall|j: int|
            0 <= j < 16 && sp + 8 * j < top && readable_to(sc, sp, j)
                ==> match #[trigger] cell_at(sc, sp, j) {
                Some(v) => shows_row(text, data_label(j), v as int, "\n"@),
                None => shows_row(text, "│   <unreadable @ "@, sp + 8 * j, ">\n"@),
            }
        &&& forall|n: int| #[trigger]
            rows_end(sc, sp, top, 16, n) && sp <= top && n < (top - sp) / 8 ==> has_part(
                text,
                "│   … "@ + decimal(((top - sp) / 8 - n) as nat) + " more\n"@,
            )
    } else {
        shows_row(text, "│ DATA STACK  rbp="@, sp as int, "  (not in data-stack region)\n"@)
    }
}

#[verifier::spinoff_prover]
#[verifier::rlimit(60)]
proof fn lemma_data_stack(
    pre: Seq<char>,
    sc: Scene,
    regs: CrashRegs,
    fi: ForthDumpInfo,
    text: Seq<char>,
)
    requires
        extends(data_stack_on(pre, sc, regs, fi), text),
    ensures
        tells_data_stack(text, sc, regs, fi),
        extends(pre, text),
{
    reveal(tells_data_stack);
    let (sp, top) = (regs.rbp, fi.dstack_top);
    let s = pre + "│\n"@;
    if fi.dstack_low <= sp <= top + 8 {
        let has_tos = sp <= top;
        let deep = "  depth="@ + decimal(depth(sp, top)) + "\n"@;
        let head = s + "│ DATA STACK  rbp="@ + hex16(sp) + "  depth="@ + decimal(depth(sp, top))
            + "\n"@;
        let tos = if has_tos {
            head + "│   TOS   "@ + hex16(regs.rax) + "   (rax)\n"@
        } else {
            head
        };
        let rows = data_rows_on(tos, sc, sp, top, 0);
        let shown = data_shown(sc, sp, top, 0);
        let cells = if has_tos {
            (top - sp) / 8
        } else {
            0
        };
        if cells > shown {
            let more = "│   … "@ + decimal((cells - shown) as nat) + " more\n"@;
            assert(rows + "│   … "@ + decimal((cells - shown) as nat) + " more\n"@ =~= rows + more);
            lemma_has_part(rows, more, text);
        }
        assert forall|n: int| #[trigger] rows_end(sc, sp, top, 16, n) && sp <= top && n < (top - sp)
            / 8 implies has_part(
            text,
            "│   … "@ + decimal(((top - sp) / 8 - n) as nat) + " more\n"@,
        ) by {
            lemma_data_shown(sc, sp, top, 0, n);
        }
        assert(extends(rows, text));
        lemma_data_rows(tos, sc, sp, top, 0, text);
        if has_tos {
            lemma_row(head, "│   TOS   "@, regs.rax, "   (rax)\n"@, text);
        }
        assert(head =~= s + "│ DATA STACK  rbp="@ + hex16(sp) + deep);
        lemma_row(s, "│ DATA STACK  rbp="@, sp, deep, text);
    } else {
        lemma_row(s, "│ DATA STACK  rbp="@, sp, "  (not in data-stack region)\n"@, text);
    }
    lemma_prefix(pre, "│\n"@, text);
}

/// How many of the first `n` cells from `base` up point into code.
pub open spec fn frames_before(sc: Scene, base: u64, n: int) -> nat
    decreases n,
{
    if n <= 0 {
        0
    } else {
        frames_before(sc, base, n - 1) + match cell_at(sc, base, n - 1) {
            Some(v) => if in_code(sc.ranges, v) {
                1nat
            } else {
                0
            },
            None => 0,
        }
    }
}

/// What comes behind the address of a frame: its name, and its distance from the stack pointer.
pub open spec fn frame_rest(sc: Scene, v: u64, k: int) -> Seq<char> {
    "  "@ + sc.name_or(v, Seq::empty()) + "   @ rp+"@ + decimal((8 * k) as nat) + "\n"@
}

/// The label of the frame with this number.
pub open spec fn frame_label(number: nat) -> Seq<char> {
    "│   #"@ + left_aligned(decimal(number), 2) + " "@
}

/// The text has a row for the `k`th cell of the return stack: a numbered frame with its name where
/// the cell points into code, and else data.
pub open spec fn tells_return_cell(text: Seq<char>, sc: Scene, base: u64, k: int) -> bool {
    match cell_at(sc, base, k) {
        Some(v) => if in_code(sc.ranges, v) {
            shows_row(
                text,
                frame_label(frames_before(sc, base, k)),
                v as int,
                frame_rest(sc, v, k),
            )
        } else {
            shows_row(
                text,
                "│        "@,
                v as int,
                "  (data)        @ rp+"@ + decimal((8 * k) as nat) + "\n"@,
            )
        },
        None => shows_row(text, "│   <unreadable @ "@, base + 8 * k, ">\n"@),
    }
}

/// What the trace becomes with the row of the `k`th cell, which holds `v`.
spec fn with_return_row(pre: Seq<char>, sc: Scene, v: u64, k: int, frame: nat) -> Seq<char> {
    if in_code(sc.ranges, v) {
        pre + "│   #"@ + left_aligned(decimal(frame), 2) + " "@ + hex16(v) + "  "@ + sc.name_or(
            v,
            Seq::empty(),
        ) + "   @ rp+"@ + decimal((8 * k) as nat) + "\n"@
    } else {
        pre + "│        "@ + hex16(v) + "  (data)        @ rp+"@ + decimal((8 * k) as nat) + "\n"@
    }
}

proof fn lemma_return_row(pre: Seq<char>, sc: Scene, base: u64, v: u64, k: int, text: Seq<char>)
    requires
        cell_at(sc, base, k) == Some(v),
        extends(with_return_row(pre, sc, v, k, frames_before(sc, base, k)), text),
    ensures
        tells_return_cell(text, sc, base, k),
        extends(pre, text),
{
    let frame = frames_before(sc, base, k);
    let row = with_return_row(pre, sc, v, k, frame);
    if in_code(sc.ranges, v) {
        assert(row =~= pre + frame_label(frame) + hex16(v) + frame_rest(sc, v, k));
        lemma_row(pre, frame_label(frame), v, frame_rest(sc, v, k), text);
    } else {
        let rest = "  (data)        @ rp+"@ + decimal((8 * k) as nat) + "\n"@;
        assert(row =~= pre + "│        "@ + hex16(v) + rest);
        lemma_row(pre, "│        "@, v, rest, text);
    }
}

#[verifier::spinoff_prover]
#[verifier::rlimit(60)]
proof fn lemma_return_rows(
    pre: Seq<char>,
    sc: Scene,
    base: u64,
    top: u64,
    k: int,
    text: Seq<char>,
)
    requires
        0 <= k,
        extends(
            return_rows_on(pre, sc, base, top, k, frames_before(sc, base, k) as int),
            text,
        ),
    ensures
        extends(pre, text),
        forall|j: int|
            k <= j < 64 && base + 8 * j < top && (forall|i: int|
                k <= i < j ==> #[trigger] cell_at(sc, base, i) is Some) ==> #[trigger]
                tells_return_cell(text, sc, base, j),
    decreases 64 - k,
{
    let frame = frames_before(sc, base, k);
    if k < 64 && base + 8 * k < top {
        match cell_at(sc, base, k) {
            Some(v) => {
                lemma_return_rows(
                    with_return_row(pre, sc, v, k, frame),
                    sc,
                    base,
                    top,
                    k + 1,
                    text,
                );
                lemma_return_row(pre, sc, base, v, k, text);
            },
            None => {
                let addr = (base + 8 * k) as u64;
                lemma_row(pre, "│   <unreadable @ "@, addr, ">\n"@, text);
            },
        }
    }
}

proof fn lemma_frames(sc: Scene, base: u64, top: u64, k: int, n: int)
    requires
        0 <= k <= n,
        rows_end(sc, base, top, 64, n),
    ensures
        frames(sc, base, top, k, frames_before(sc, base, k) as int)
            == frames_before(sc, base, n),
    decreases n - k,
{
    if k < n {
        assert(cell_at(sc, base, k) is Some);
        lemma_frames(sc, base, top, k + 1, n);
    }
}

/// The text tells the return stack: where it stands, and then a row for each of its cells from the
/// pointer up, sixty-four at most and up to the first that cannot be read. It says so where none
/// of them is a frame.
#[verifier::opaque]
pub open spec fn tells_return_stack(
    text: Seq<char>,
    sc: Scene,
    regs: CrashRegs,
    fi: ForthDumpInfo,
) -> bool {
    let (sp, top) = (regs.rsp, fi.rstack_top);
    if fi.rstack_low <= sp <= top {
        &&& exists|at: int| #[trigger]
            shows(text, at, "│ RETURN STACK  rsp="@, sp as int) && shows(
                text,
                behind(at, "│ RETURN STACK  rsp="@),
                "  top="@,
                top as int,
            )
        &&& forall|j: int|
            0 <= j < 64 && sp + 8 * j < top && readable_to(sc, sp, j) ==> #[trigger]
                tells_return_cell(text, sc, sp, j)
        &&& forall|n: int| #[trigger]
            rows_end(sc, sp, top, 64, n) && frames_before(sc, sp, n) == 0 ==> has_part(
                text,
                "│   (no Forth return addresses found)\n"@,
            )
    } else {
        shows_row(text, "│ RETURN STACK  rsp="@, sp as int, "  (not in return-stack region)\n"@)
    }
}

#[verifier::spinoff_prover]
#[verifier::rlimit(60)]
proof fn lemma_return_stack(
    pre: Seq<char>,
    sc: Scene,
    regs: CrashRegs,
    fi: ForthDumpInfo,
    text: Seq<char>,
)
    requires
        extends(return_stack_on(pre, sc, regs, fi), text),
    ensures
        tells_return_stack(text, sc, regs, fi),
        extends(pre, text),
{
    reveal(tells_return_stack);
    let (sp, top) = (regs.rsp, fi.rstack_top);
    let s = pre + "│\n"@;
    if fi.rstack_low <= sp <= top {
        let first = s + "│ RETURN STACK  rsp="@ + hex16(sp);
        let head = first + "  top="@ + hex16(top) + "\n"@;
        let rows = return_rows_on(head, sc, sp, top, 0, 0);
        if frames(sc, sp, top, 0, 0) == 0 {
            lemma_has_part(rows, "│   (no Forth return addresses found)\n"@, text);
        }
        assert forall|n: int| #[trigger]
            rows_end(sc, sp, top, 64, n) && frames_before(sc, sp, n) == 0 implies has_part(
            text,
            "│   (no Forth return addresses found)\n"@,
        ) by {
            lemma_frames(sc, sp, top, 0, n);
        }
        assert(extends(rows, text));
        lemma_return_rows(head, sc, sp, top, 0, text);
        lemma_prefix(first + "  top="@ + hex16(top), "\n"@, text);
        lemma_shows(first, "  top="@, top, text);
        lemma_shows(s, "│ RETURN STACK  rsp="@, sp, text);
    } else {
        lemma_row(s, "│ RETURN STACK  rsp="@, sp, "  (not in return-stack region)\n"@, text);
    }
    lemma_prefix(pre, "│\n"@, text);
}

/// What was read of the user variable `v`.
pub open spec fn variable(sc: Scene, up: u64, v: ForthVar) -> Option<u64> {
    sc.qword(((up + v.offset) % 0x1_0000_0000_0000_0000) as u64)
}

/// The text has a row for the user variable `v`, with its name and its value.
pub open spec fn tells_variable(text: Seq<char>, sc: Scene, up: u64, v: ForthVar) -> bool {
    let name = "│   "@ + left_aligned(v.name@, 10);
    match variable(sc, up, v) {
        Some(x) => shows_row(text, name + " = "@, x as int, "\n"@),
        None => has_part(text, name + " = <unreadable>\n"@),
    }
}

proof fn lemma_var_rows(
    pre: Seq<char>,
    sc: Scene,
    up: u64,
    vars: Seq<ForthVar>,
    text: Seq<char>,
)
    requires
        extends(var_rows_on(pre, sc, up, vars), text),
    ensures
        extends(pre, text),
        forall|i: int|
            0 <= i < vars.len() ==> tells_variable(text, sc, up, #[trigger] vars[i]),
    decreases vars.len(),
{
    if vars.len() > 0 {
        let init = vars.drop_last();
        let before = var_rows_on(pre, sc, up, init);
        let v = vars.last();
        let name = "│   "@ + left_aligned(v.name@, 10);
        match variable(sc, up, v) {
            Some(x) => {
                let label = name + " = "@;
                assert(before + "│   "@ + left_aligned(v.name@, 10) + " = "@ + hex16(x) + "\n"@
                    =~= before + label + hex16(x) + "\n"@);
                lemma_row(before, label, x, "\n"@, text);
            },
            None => {
                let row = name + " = <unreadable>\n"@;
                assert(before + "│   "@ + left_aligned(v.name@, 10) + " = <unreadable>\n"@ =~= before
                    + row);
                lemma_has_part(before, row, text);
            },
        }
        lemma_var_rows(pre, sc, up, init, text);
        assert forall|i: int| 0 <= i < vars.len() implies tells_variable(
            text,
            sc,
            up,
            #[trigger] vars[i],
        ) by {
            if i < init.len() {
                assert(vars[i] == init[i]);
            }
        }
    }
}

/// The text tells the user variables, each with its value, where RBX holds the user base, and else
/// both addresses.
#[verifier::opaque]
pub open spec fn tells_variables(
    text: Seq<char>,
    sc: Scene,
    regs: CrashRegs,
    fi: ForthDumpInfo,
) -> bool {
    if regs.rbx == fi.user_base {
        &&& shows_row(text, "│ USER VARS  up="@, regs.rbx as int, "\n"@)
        &&& forall|i: int|
            0 <= i < fi.vars@.len() ==> tells_variable(text, sc, regs.rbx, #[trigger] fi.vars@[i])
    } else {
        exists|at: int| #[trigger]
            shows(text, at, "│ USER VARS  rbx="@, regs.rbx as int) && shows(
                text,
                behind(at, "│ USER VARS  rbx="@),
                "  (≠ user base "@,
                fi.user_base as int,
            )
    }
}

proof fn lemma_vars(
    pre: Seq<char>,
    sc: Scene,
    regs: CrashRegs,
    fi: ForthDumpInfo,
    text: Seq<char>,
)
    requires
        extends(vars_on(pre, sc, regs, fi), text),
    ensures
        tells_variables(text, sc, regs, fi),
        extends(pre, text),
{
    reveal(tells_variables);
    let s = pre + "│\n"@;
    if regs.rbx == fi.user_base {
        lemma_var_rows(
            s + "│ USER VARS  up="@ + hex16(regs.rbx) + "\n"@,
            sc,
            regs.rbx,
            fi.vars@,
            text,
        );
        lemma_row(s, "│ USER VARS  up="@, regs.rbx, "\n"@, text);
    } else {
        let first = s + "│ USER VARS  rbx="@ + hex16(regs.rbx);
        lemma_prefix(first + "  (≠ user base "@ + hex16(fi.user_base), "; skipped)\n"@, text);
        lemma_shows(first, "  (≠ user base "@, fi.user_base, text);
        lemma_shows(s, "│ USER VARS  rbx="@, regs.rbx, text);
    }
    lemma_prefix(pre, "│\n"@, text);
}

/// The label of the `k`th cell above RSP.
pub open spec fn raw_label(k: int) -> Seq<char> {
    "│   [rsp+"@ + right_aligned(decimal((8 * k) as nat), 3)
}

/// The text has a row for the `k`th cell above RSP, with what it holds and its name.
pub open spec fn tells_raw_cell(text: Seq<char>, sc: Scene, base: u64, k: int) -> bool {
    match cell_at(sc, base, k) {
        Some(v) => shows_row(
            text,
            raw_label(k) + "] "@,
            v as int,
            "  "@ + sc.name_or(v, Seq::empty()) + "\n"@,
        ),
        None => has_part(text, raw_label(k) + "] <unreadable>\n"@),
    }
}

#[verifier::spinoff_prover]
#[verifier::rlimit(60)]
proof fn lemma_raw_rows(pre: Seq<char>, sc: Scene, base: u64, k: int, text: Seq<char>)
    requires
        0 <= k,
        extends(raw_rows_on(pre, sc, base, k), text),
    ensures
        extends(pre, text),
        forall|j: int|
            k <= j < 32 && (forall|i: int| k <= i < j ==> #[trigger] cell_at(sc, base, i) is Some)
                ==> #[trigger] tells_raw_cell(text, sc, base, j),
    decreases 32 - k,
{
    if k < 32 {
        let at = pre + "│   [rsp+"@ + right_aligned(decimal((8 * k) as nat), 3);
        match cell_at(sc, base, k) {
            Some(v) => {
                let rest = "  "@ + sc.name_or(v, Seq::empty()) + "\n"@;
                let row = at + "] "@ + hex16(v) + "  "@ + sc.name_or(v, Seq::empty()) + "\n"@;
                lemma_raw_rows(row, sc, base, k + 1, text);
                assert(row =~= pre + (raw_label(k) + "] "@) + hex16(v) + rest);
                lemma_row(pre, raw_label(k) + "] "@, v, rest, text);
            },
            None => {
                assert(at + "] <unreadable>\n"@ =~= pre + (raw_label(k) + "] <unreadable>\n"@));
                lemma_has_part(pre, raw_label(k) + "] <unreadable>\n"@, text);
            },
        }
    }
}

/// What an access violation was about.
pub open spec fn access_word(kind: u32) -> Seq<char> {
    match kind {
        0 => "read"@,
        1 => "write"@,
        8 => "execute"@,
        _ => "?"@,
    }
}

/// The text tells the fault: the exception by its code and its kind, the word at RIP, and the
/// access, if there was one.
#[verifier::opaque]
pub open spec fn tells_fault(
    text: Seq<char>,
    sc: Scene,
    regs: CrashRegs,
    code: u32,
    kind: Seq<char>,
    access: Option<(u32, u64)>,
) -> bool {
    &&& exists|at: int| #[trigger]
        shows8(text, at, "│ exception : 0x"@, code as int) && part_at(
            text,
            "  "@ + kind + "\n"@,
            at + "│ exception : 0x"@.len() + 8,
        )
    &&& shows_row(
        text,
        "│ at word   : "@,
        regs.rip as int,
        "  "@ + sc.name_or(regs.rip, "<?>"@) + "\n"@,
    )
    &&& access matches Some((what, addr)) ==> shows_row(
        text,
        "│ access    : "@ + access_word(what) + " at "@,
        addr as int,
        "  "@ + sc.name_or(addr, Seq::empty()) + "\n"@,
    )
}

proof fn lemma_head(
    sc: Scene,
    regs: CrashRegs,
    code: u32,
    access: Option<(u32, u64)>,
    text: Seq<char>,
)
    requires
        extends(head_on(Seq::empty(), sc, regs, code, access), text),
    ensures
        tells_fault(text, sc, regs, code, kind_text(code), access),
{
    reveal(tells_fault);
    let title = Seq::<char>::empty()
        + "┌─── WF64 Forth crash dump ──────────────────────────────────────────────\n"@;
    let num = title + "│ exception : 0x"@ + hex8(code);
    let kind = "  "@ + kind_text(code) + "\n"@;
    let one = num + kind;
    let name = "  "@ + sc.name_or(regs.rip, "<?>"@) + "\n"@;
    let two = one + "│ at word   : "@ + hex16(regs.rip) + name;
    let base = title + "│ exception : 0x"@ + hex8(code) + "  "@ + kind_text(code) + "\n"@
        + "│ at word   : "@ + hex16(regs.rip) + "  "@ + sc.name_or(regs.rip, "<?>"@) + "\n"@;
    assert(base =~= two);
    if let Some((what, addr)) = access {
        let label = "│ access    : "@ + access_word(what) + " at "@;
        let rest = "  "@ + sc.name_or(addr, Seq::empty()) + "\n"@;
        assert(base + "│ access    : "@ + access_word(what) + " at "@ + hex16(addr) + "  "@
            + sc.name_or(addr, Seq::empty()) + "\n"@ =~= two + label + hex16(addr) + rest);
        lemma_row(two, label, addr, rest, text);
    }
    lemma_row(one, "│ at word   : "@, regs.rip, name, text);
    hex_digits_spell_the_number(0, code);
    lemma_part(num, kind, text);
    lemma_shows8(title, "│ exception : 0x"@, code, text);
}

/// Rows are put behind what is there.
proof fn lemma_data_rows_behind(pre: Seq<char>, sc: Scene, base: u64, top: u64, k: int, x: Seq<char>)
    requires
        0 <= k,
    ensures
        data_rows_on(pre + x, sc, base, top, k) == pre + data_rows_on(x, sc, base, top, k),
    decreases 16 - k,
{
    if k < 16 && base + 8 * k < top {
        match cell_at(sc, base, k) {
            Some(v) => {
                let pad = left_aligned(decimal(k as nat), 2);
                let row = x + "│   NOS+"@ + pad + " "@ + hex16(v) + "\n"@;
                assert(pre + x + "│   NOS+"@ + pad + " "@ + hex16(v) + "\n"@ =~= pre + row);
                lemma_data_rows_behind(pre, sc, base, top, k + 1, row);
            },
            None => {
                let addr = hex16((base + 8 * k) as u64);
                assert(pre + x + "│   <unreadable @ "@ + addr + ">\n"@ =~= pre + (x
                    + "│   <unreadable @ "@ + addr + ">\n"@));
            },
        }
    }
}

proof fn lemma_return_rows_behind(
    pre: Seq<char>,
    sc: Scene,
    base: u64,
    top: u64,
    k: int,
    frame: int,
    x: Seq<char>,
)
    requires
        0 <= k,
        0 <= frame,
    ensures
        return_rows_on(pre + x, sc, base, top, k, frame) == pre + return_rows_on(
            x,
            sc,
            base,
            top,
            k,
            frame,
        ),
    decreases 64 - k,
{
    if k < 64 && base + 8 * k < top {
        match cell_at(sc, base, k) {
            Some(v) => {
                let row = with_return_row(x, sc, v, k, frame as nat);
                assert(with_return_row(pre + x, sc, v, k, frame as nat) =~= pre + row);
                let next = if in_code(sc.ranges, v) {
                    frame + 1
                } else {
                    frame
                };
                lemma_return_rows_behind(pre, sc, base, top, k + 1, next, row);
            },
            None => {
                let addr = hex16((base + 8 * k) as u64);
                assert(pre + x + "│   <unreadable @ "@ + addr + ">\n"@ =~= pre + (x
                    + "│   <unreadable @ "@ + addr + ">\n"@));
            },
        }
    }
}

proof fn lemma_var_rows_behind(
    pre: Seq<char>,
    sc: Scene,
    up: u64,
    vars: Seq<ForthVar>,
    x: Seq<char>,
)
    ensures
        var_rows_on(pre + x, sc, up, vars) == pre + var_rows_on(x, sc, up, vars),
    decreases vars.len(),
{
    if vars.len() > 0 {
        let init = vars.drop_last();
        lemma_var_rows_behind(pre, sc, up, init, x);
        let before = var_rows_on(x, sc, up, init);
        let v = vars.last();
        let name = left_aligned(v.name@, 10);
        match variable(sc, up, v) {
            Some(val) => {
                assert(pre + before + "│   "@ + name + " = "@ + hex16(val) + "\n"@ =~= pre + (before
                    + "│   "@ + name + " = "@ + hex16(val) + "\n"@));
            },
            None => {
                assert(pre + before + "│   "@ + name + " = <unreadable>\n"@ =~= pre + (before
                    + "│   "@ + name + " = <unreadable>\n"@));
            },
        }
    }
}

proof fn lemma_raw_rows_behind(pre: Seq<char>, sc: Scene, base: u64, k: int, x: Seq<char>)
    requires
        0 <= k,
    ensures
        raw_rows_on(pre + x, sc, base, k) == pre + raw_rows_on(x, sc, base, k),
    decreases 32 - k,
{
    if k < 32 {
        let num = right_aligned(decimal((8 * k) as nat), 3);
        match cell_at(sc, base, k) {
            Some(v) => {
                let name = sc.name_or(v, Seq::empty());
                let row = x + "│   [rsp+"@ + num + "] "@ + hex16(v) + "  "@ + name + "\n"@;
                assert(pre + x + "│   [rsp+"@ + num + "] "@ + hex16(v) + "  "@ + name + "\n"@
                    =~= pre + row);
                lemma_raw_rows_behind(pre, sc, base, k + 1, row);
            },
            None => {
                assert(pre + x + "│   [rsp+"@ + num + "] <unreadable>\n"@ =~= pre + (x
                    + "│   [rsp+"@ + num + "] <unreadable>\n"@));
            },
        }
    }
}

proof fn lemma_data_stack_behind(pre: Seq<char>, sc: Scene, regs: CrashRegs, fi: ForthDumpInfo)
    ensures
        data_stack_on(pre, sc, regs, fi) == pre + data_stack_on(Seq::empty(), sc, regs, fi),
{
    let (sp, top) = (regs.rbp, fi.dstack_top);
    let none = Seq::<char>::empty();
    let s = none + "│\n"@;
    if fi.dstack_low <= sp <= top + 8 {
        let has_tos = sp <= top;
        let deep = decimal(depth(sp, top));
        let head = s + "│ DATA STACK  rbp="@ + hex16(sp) + "  depth="@ + deep + "\n"@;
        let whole = pre + "│\n"@ + "│ DATA STACK  rbp="@ + hex16(sp) + "  depth="@ + deep + "\n"@;
        assert(whole =~= pre + head);
        let tos = if has_tos {
            head + "│   TOS   "@ + hex16(regs.rax) + "   (rax)\n"@
        } else {
            head
        };
        assert(pre + head + "│   TOS   "@ + hex16(regs.rax) + "   (rax)\n"@ =~= pre + (head
            + "│   TOS   "@ + hex16(regs.rax) + "   (rax)\n"@));
        lemma_data_rows_behind(pre, sc, sp, top, 0, tos);
        let rows = data_rows_on(tos, sc, sp, top, 0);
        let cells = if has_tos {
            (top - sp) / 8
        } else {
            0
        };
        let more = decimal((cells - data_shown(sc, sp, top, 0)) as nat);
        assert(pre + rows + "│   … "@ + more + " more\n"@ =~= pre + (rows + "│   … "@ + more
            + " more\n"@));
    } else {
        assert(data_stack_on(pre, sc, regs, fi) =~= pre + data_stack_on(none, sc, regs, fi));
    }
}

proof fn lemma_return_stack_behind(pre: Seq<char>, sc: Scene, regs: CrashRegs, fi: ForthDumpInfo)
    ensures
        return_stack_on(pre, sc, regs, fi) == pre + return_stack_on(Seq::empty(), sc, regs, fi),
{
    let (sp, top) = (regs.rsp, fi.rstack_top);
    let none = Seq::<char>::empty();
    if fi.rstack_low <= sp <= top {
        let head = none + "│\n"@ + "│ RETURN STACK  rsp="@ + hex16(sp) + "  top="@ + hex16(top)
            + "\n"@;
        let whole = pre + "│\n"@ + "│ RETURN STACK  rsp="@ + hex16(sp) + "  top="@ + hex16(top)
            + "\n"@;
        assert(whole =~= pre + head);
        lemma_return_rows_behind(pre, sc, sp, top, 0, 0, head);
        let rows = return_rows_on(head, sc, sp, top, 0, 0);
        assert(pre + rows + "│   (no Forth return addresses found)\n"@ =~= pre + (rows
            + "│   (no Forth return addresses found)\n"@));
    } else {
        assert(return_stack_on(pre, sc, regs, fi) =~= pre + return_stack_on(none, sc, regs, fi));
    }
}

proof fn lemma_vars_behind(pre: Seq<char>, sc: Scene, regs: CrashRegs, fi: ForthDumpInfo)
    ensures
        vars_on(pre, sc, regs, fi) == pre + vars_on(Seq::empty(), sc, regs, fi),
{
    let none = Seq::<char>::empty();
    if regs.rbx == fi.user_base {
        let head = none + "│\n"@ + "│ USER VARS  up="@ + hex16(regs.rbx) + "\n"@;
        assert(pre + "│\n"@ + "│ USER VARS  up="@ + hex16(regs.rbx) + "\n"@ =~= pre + head);
        lemma_var_rows_behind(pre, sc, regs.rbx, fi.vars@, head);
    } else {
        assert(vars_on(pre, sc, regs, fi) =~= pre + vars_on(none, sc, regs, fi));
    }
}

proof fn lemma_behind(pre: Seq<char>, s: Seq<char>, a: Seq<char>, b: Seq<char>)
    ensures
        pre + s + a + b == pre + (s + a + b),
{
    assert(pre + s + a + b =~= pre + (s + a + b));
}

proof fn lemma_cpu_behind(pre: Seq<char>, r: CrashRegs)
    ensures
        cpu_on(pre, r) == pre + cpu_on(Seq::empty(), r),
{
    let none = Seq::<char>::empty();
    let s0 = none + "│\n"@;
    assert(pre + "│\n"@ =~= pre + s0);
    let s1 = s0 + "│ CPU  rax="@ + hex16(r.rax);
    lemma_behind(pre, s0, "│ CPU  rax="@, hex16(r.rax));
    let s2 = s1 + " rbx="@ + hex16(r.rbx);
    lemma_behind(pre, s1, " rbx="@, hex16(r.rbx));
    let s3 = s2 + " rcx="@ + hex16(r.rcx);
    lemma_behind(pre, s2, " rcx="@, hex16(r.rcx));
    let s4 = s3 + "\n"@;
    assert(pre + s3 + "\n"@ =~= pre + s4);
    let s5 = s4 + "│      rdx="@ + hex16(r.rdx);
    lemma_behind(pre, s4, "│      rdx="@, hex16(r.rdx));
    let s6 = s5 + " rsi="@ + hex16(r.rsi);
    lemma_behind(pre, s5, " rsi="@, hex16(r.rsi));
    let s7 = s6 + " rdi="@ + hex16(r.rdi);
    lemma_behind(pre, s6, " rdi="@, hex16(r.rdi));
    let s8 = s7 + "\n"@;
    assert(pre + s7 + "\n"@ =~= pre + s8);
    let s9 = s8 + "│      rbp="@ + hex16(r.rbp);
    lemma_behind(pre, s8, "│      rbp="@, hex16(r.rbp));
    let s10 = s9 + " rsp="@ + hex16(r.rsp);
    lemma_behind(pre, s9, " rsp="@, hex16(r.rsp));
    let s11 = s10 + " rip="@ + hex16(r.rip);
    lemma_behind(pre, s10, " rip="@, hex16(r.rip));
    let s12 = s11 + "\n"@;
    assert(pre + s11 + "\n"@ =~= pre + s12);
    let s13 = s12 + "│      r8 ="@ + hex16(r.r8);
    lemma_behind(pre, s12, "│      r8 ="@, hex16(r.r8));
    let s14 = s13 + " r9 ="@ + hex16(r.r9);
    lemma_behind(pre, s13, " r9 ="@, hex16(r.r9));
    let s15 = s14 + " r10="@ + hex16(r.r10);
    lemma_behind(pre, s14, " r10="@, hex16(r.r10));
    let s16 = s15 + "\n"@;
    assert(pre + s15 + "\n"@ =~= pre + s16);
    let s17 = s16 + "│      r11="@ + hex16(r.r11);
    lemma_behind(pre, s16, "│      r11="@, hex16(r.r11));
    let s18 = s17 + " r12="@ + hex16(r.r12);
    lemma_behind(pre, s17, " r12="@, hex16(r.r12));
    let s19 = s18 + " r13="@ + hex16(r.r13);
    lemma_behind(pre, s18, " r13="@, hex16(r.r13));
    let s20 = s19 + "\n"@;
    assert(pre + s19 + "\n"@ =~= pre + s20);
    let s21 = s20 + "│      r14="@ + hex16(r.r14);
    lemma_behind(pre, s20, "│      r14="@, hex16(r.r14));
    let s22 = s21 + " r15="@ + hex16(r.r15);
    lemma_behind(pre, s21, " r15="@, hex16(r.r15));
    let last = s22 + " flags="@ + hex8(r.eflags);
    lemma_behind(pre, s22, " flags="@, hex8(r.eflags));
    assert(pre + last + "\n"@ =~= pre + (last + "\n"@));
}

/// The line that ends a dump.
pub open spec fn foot() -> Seq<char> {
    "└───────────────────────────────────────────────────────────────────────\n"@
}

/// The dump is these five parts, one behind the other: the fault, the data stack, the return stack,
/// the user variables, and the registers of the CPU.
pub open spec fn told_in_order(
    text: Seq<char>,
    parts: Seq<Seq<char>>,
    sc: Scene,
    fi: ForthDumpInfo,
    regs: CrashRegs,
    code: u32,
    access: Option<(u32, u64)>,
) -> bool {
    &&& parts.len() == 5
    &&& text == parts[0] + parts[1] + parts[2] + parts[3] + parts[4] + foot()
    &&& tells_fault(parts[0], sc, regs, code, kind_text(code), access)
    &&& tells_data_stack(parts[1], sc, regs, fi)
    &&& tells_return_stack(parts[2], sc, regs, fi)
    &&& tells_variables(parts[3], sc, regs, fi)
    &&& exists|b: int| #[trigger] shows_cpu(parts[4], b, regs)
}

/// The dump is these three parts, one behind the other: the fault, the registers of the CPU, and
/// the cells above RSP, thirty-two at most and up to the first that cannot be read.
pub open spec fn told_raw(
    text: Seq<char>,
    parts: Seq<Seq<char>>,
    sc: Scene,
    regs: CrashRegs,
    code: u32,
    access: Option<(u32, u64)>,
) -> bool {
    &&& parts.len() == 3
    &&& text == parts[0] + parts[1] + parts[2] + foot()
    &&& tells_fault(parts[0], sc, regs, code, kind_text(code), access)
    &&& exists|b: int| #[trigger] shows_cpu(parts[1], b, regs)
    &&& forall|j: int|
        0 <= j < 32 && readable_to(sc, regs.rsp, j) ==> #[trigger] tells_raw_cell(
            parts[2],
            sc,
            regs.rsp,
            j,
        )
}

/// The parts of a dump, each as it is written behind nothing.
#[verifier::spinoff_prover]
#[verifier::rlimit(60)]
proof fn lemma_parts(
    sc: Scene,
    fi: ForthDumpInfo,
    regs: CrashRegs,
    code: u32,
    access: Option<(u32, u64)>,
)
    ensures
        dump_text(sc, Some(fi), regs, code, access) == head_on(
            Seq::empty(),
            sc,
            regs,
            code,
            access,
        ) + data_stack_on(Seq::empty(), sc, regs, fi) + return_stack_on(Seq::empty(), sc, regs, fi)
            + vars_on(Seq::empty(), sc, regs, fi) + cpu_on(Seq::empty(), regs) + foot(),
{
    let none = Seq::<char>::empty();
    let head = head_on(none, sc, regs, code, access);
    let data = head + data_stack_on(none, sc, regs, fi);
    let ret = data + return_stack_on(none, sc, regs, fi);
    let vars = ret + vars_on(none, sc, regs, fi);
    lemma_data_stack_behind(head, sc, regs, fi);
    lemma_return_stack_behind(data, sc, regs, fi);
    lemma_vars_behind(ret, sc, regs, fi);
    lemma_cpu_behind(vars, regs);
}

proof fn lemma_told_fault(sc: Scene, regs: CrashRegs, code: u32, access: Option<(u32, u64)>)
    ensures
        tells_fault(
            head_on(Seq::empty(), sc, regs, code, access),
            sc,
            regs,
            code,
            kind_text(code),
            access,
        ),
{
    let head = head_on(Seq::empty(), sc, regs, code, access);
    lemma_whole(head);
    lemma_head(sc, regs, code, access, head);
}

proof fn lemma_told_stacks(sc: Scene, regs: CrashRegs, fi: ForthDumpInfo)
    ensures
        tells_data_stack(data_stack_on(Seq::empty(), sc, regs, fi), sc, regs, fi),
        tells_return_stack(return_stack_on(Seq::empty(), sc, regs, fi), sc, regs, fi),
        tells_variables(vars_on(Seq::empty(), sc, regs, fi), sc, regs, fi),
{
    let none = Seq::<char>::empty();
    lemma_whole(data_stack_on(none, sc, regs, fi));
    lemma_whole(return_stack_on(none, sc, regs, fi));
    lemma_whole(vars_on(none, sc, regs, fi));
    lemma_data_stack(none, sc, regs, fi, data_stack_on(none, sc, regs, fi));
    lemma_return_stack(none, sc, regs, fi, return_stack_on(none, sc, regs, fi));
    lemma_vars(none, sc, regs, fi, vars_on(none, sc, regs, fi));
}

proof fn lemma_told_cpu(regs: CrashRegs)
    ensures
        exists|b: int| #[trigger] shows_cpu(cpu_on(Seq::empty(), regs), b, regs),
{
    let cpu = cpu_on(Seq::empty(), regs);
    lemma_whole(cpu);
    lemma_cpu(Seq::empty(), regs, cpu);
}

proof fn lemma_in_order(
    text: Seq<char>,
    parts: Seq<Seq<char>>,
    sc: Scene,
    fi: ForthDumpInfo,
    regs: CrashRegs,
    code: u32,
    access: Option<(u32, u64)>,
)
    requires
        parts.len() == 5,
        text == parts[0] + parts[1] + parts[2] + parts[3] + parts[4] + foot(),
        tells_fault(parts[0], sc, regs, code, kind_text(code), access),
        tells_data_stack(parts[1], sc, regs, fi),
        tells_return_stack(parts[2], sc, regs, fi),
        tells_variables(parts[3], sc, regs, fi),
        exists|b: int| #[trigger] shows_cpu(parts[4], b, regs),
    ensures
        told_in_order(text, parts, sc, fi, regs, code, access),
{
}

/// Where the layout of Forth is known, a dump tells the fault, the data stack, the return stack and
/// the user variables, and only then the registers of the CPU, each behind its label.
#[verifier::spinoff_prover]
#[verifier::rlimit(60)]
pub proof fn dump_tells_the_crash(
    sc: Scene,
    fi: ForthDumpInfo,
    regs: CrashRegs,
    code: u32,
    access: Option<(u32, u64)>,
)
    ensures
        exists|parts: Seq<Seq<char>>| #[trigger]
            told_in_order(
                dump_text(sc, Some(fi), regs, code, access),
                parts,
                sc,
                fi,
                regs,
                code,
                access,
            ),
{
    let none = Seq::<char>::empty();
    let parts = seq![
        head_on(none, sc, regs, code, access),
        data_stack_on(none, sc, regs, fi),
        return_stack_on(none, sc, regs, fi),
        vars_on(none, sc, regs, fi),
        cpu_on(none, regs),
    ];
    lemma_parts(sc, fi, regs, code, access);
    lemma_told_fault(sc, regs, code, access);
    lemma_told_stacks(sc, regs, fi);
    lemma_told_cpu(regs);
    lemma_in_order(
        dump_text(sc, Some(fi), regs, code, access),
        parts,
        sc,
        fi,
        regs,
        code,
        access,
    );
}

proof fn lemma_told_raw(sc: Scene, regs: CrashRegs)
    ensures
        forall|j: int|
            0 <= j < 32 && readable_to(sc, regs.rsp, j) ==> #[trigger] tells_raw_cell(
                raw_on(Seq::empty(), sc, regs),
                sc,
                regs.rsp,
                j,
            ),
{
    let start = Seq::<char>::empty() + "│\n"@ + "│ raw stack (32 qwords from rsp):\n"@;
    let raw = raw_on(Seq::empty(), sc, regs);
    lemma_whole(raw);
    lemma_raw_rows(start, sc, regs.rsp, 0, raw);
}

proof fn lemma_raw_behind(pre: Seq<char>, sc: Scene, regs: CrashRegs)
    ensures
        raw_on(pre, sc, regs) == pre + raw_on(Seq::empty(), sc, regs),
{
    let start = Seq::<char>::empty() + "│\n"@ + "│ raw stack (32 qwords from rsp):\n"@;
    assert(pre + "│\n"@ + "│ raw stack (32 qwords from rsp):\n"@ =~= pre + start);
    lemma_raw_rows_behind(pre, sc, regs.rsp, 0, start);
}

/// Where the layout of Forth is not known, a dump tells the fault, the registers of the CPU, each
/// behind its label, and the cells above RSP.
#[verifier::spinoff_prover]
#[verifier::rlimit(60)]
pub proof fn raw_dump_tells_the_crash(
    sc: Scene,
    regs: CrashRegs,
    code: u32,
    access: Option<(u32, u64)>,
)
    ensures
        exists|parts: Seq<Seq<char>>| #[trigger]
            told_raw(dump_text(sc, None, regs, code, access), parts, sc, regs, code, access),
{
    let none = Seq::<char>::empty();
    let head = head_on(none, sc, regs, code, access);
    let parts = seq![head, cpu_on(none, regs), raw_on(none, sc, regs)];
    lemma_told_fault(sc, regs, code, access);
    lemma_told_cpu(regs);
    lemma_told_raw(sc, regs);
    lemma_cpu_behind(head, regs);
    lemma_raw_behind(head + cpu_on(none, regs), sc, regs);
    assert(told_raw(dump_text(sc, None, regs, code, access), parts, sc, regs, code, access));
}

proof fn lemma_whole(s: Seq<char>)
    ensures
        extends(s, s),
{
    assert(s.subrange(0, s.len() as int) =~= s);
}

/// What the dump sees at an address is what was read there last, and only at multiples of eight.
pub proof fn qword_is_what_was_read_last(cells: Seq<Cell>, addr: u64)
    ensures
        match qword_at(cells, addr) {
            Some(v) => addr % 8 == 0 && exists|i: int|
                0 <= i < cells.len() && (#[trigger] cells[i]) == (Cell { addr, value: v })
                    && forall|j: int| i < j < cells.len() ==> (#[trigger] cells[j]).addr != addr,
            None => addr % 8 != 0 || forall|j: int|
                0 <= j < cells.len() ==> (#[trigger] cells[j]).addr != addr,
        },
    decreases cells.len(),
{
    if cells.len() > 0 {
        let init = cells.drop_last();
        qword_is_what_was_read_last(init, addr);
        if cells.last().addr == addr {
            assert(cells[cells.len() - 1] == (Cell { addr, value: cells.last().value }));
        } else if qword_at(cells, addr) is Some {
            let v = qword_at(cells, addr).unwrap();
            let i = choose|i: int|
                0 <= i < init.len() && (#[trigger] init[i]) == (Cell { addr, value: v })
                    && forall|j: int| i < j < init.len() ==> (#[trigger] init[j]).addr != addr;
            assert(cells[i] == (Cell { addr, value: v }));
            assert forall|j: int| i < j < cells.len() implies (#[trigger] cells[j]).addr != addr by {
                if j < init.len() {
                    assert(init[j] == cells[j]);
                }
            }
        } else if addr % 8 == 0 {
            assert forall|j: int| 0 <= j < cells.len() implies (#[trigger] cells[j]).addr
                != addr by {
                if j < init.len() {
                    assert(init[j] == cells[j]);
                }
            }
        }
    }
}

/// A dump reads nothing but what it tells: cells of the two stacks above their pointers and below
/// their tops, and the user variables; or else cells above RSP.
pub proof fn planned_reads_are_told(info: Option<ForthDumpInfo>, regs: CrashRegs, i: int)
    requires
        0 <= i < planned(info, regs).len(),
    ensures
        ({
            let addr = planned(info, regs)[i];
            match info {
                Some(fi) => {
                    ||| regs.rbp <= addr < fi.dstack_top && addr < regs.rbp + 8 * 16
                    ||| regs.rsp <= addr < fi.rstack_top && addr < regs.rsp + 8 * 64
                    ||| regs.rbx == fi.user_base && exists|v: int|
                        0 <= v < fi.vars@.len() && addr == (fi.user_base + (
                        #[trigger] fi.vars@[v]).offset) % 0x1_0000_0000_0000_0000
                },
                None => exists|k: int|
                    0 <= k < 32 && addr == #[trigger] ((regs.rsp + 8 * k)
                        % 0x1_0000_0000_0000_0000),
            }
        }),
{
    match info {
        Some(fi) => {
            let data = data_plan(regs, fi);
            let ret = return_plan(regs, fi);
            let vars = vars_plan(regs, fi);
            let all = planned(info, regs);
            if i < data.len() {
                assert(all[i] == data[i]);
            } else if i < data.len() + ret.len() {
                assert(all[i] == ret[i - data.len()]);
            } else {
                let v = i - data.len() - ret.len();
                assert(all[i] == vars[v]);
                assert(vars[v] == var_addr(regs.rbx, fi.vars@[v]));
            }
        },
        None => {
            assert(0 <= i < 32 && planned(info, regs)[i] == ((regs.rsp + 8 * i)
                % 0x1_0000_0000_0000_0000));
        },
    }
}

/// What a dump is made from is what is registered and what was read: it names addresses by the
/// registered symbols and code extents, and sees the cells that were read.
pub proof fn dumps_go_by_what_is_registered(
    d: Dumper,
    cells: Seq<Cell>,
    addr: u64,
    other: Seq<char>,
)
    ensures
        d.scene(cells).ranges == d.code_ranges@,
        d.scene(cells).qword(addr) == qword_at(cells, addr),
        d.scene(cells).name(addr) == symbol_text(d.symbols@, d.code_ranges@, addr),
        d.text_at(addr) == symbol_text(d.symbols@, d.code_ranges@, addr),
        d.scene(cells).name_or(addr, other) == match symbol_text(
            d.symbols@,
            d.code_ranges@,
            addr,
        ) {
            Some(name) => name,
            None => other,
        },
{
}

} // verus!
