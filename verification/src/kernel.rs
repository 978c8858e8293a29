//! What the Forth kernel finds when it starts: its memory, its user area, and the host functions
//! that it may call.
//!
//! Register conventions: RAX holds the top of the data stack, RBP the data stack pointer, RBX the
//! user area pointer, RSP the return stack.

use vstd::prelude::*;
use vstd::string::*;

use crate::text::same_text;
use crate::win32::Extern;

verus! {

/// Cells of the data stack.
pub const DATA_STACK_CELLS: usize = 4096;

/// Bytes of dictionary space for words defined at run time.
pub const DICT_SPACE_BYTES: usize = 0x10_0000;

/// Bytes of the terminal input buffer.
pub const TIB_SIZE: usize = 1024;

/// Offset of DP, the dictionary pointer.
pub const UP_DP: usize = 0;

/// Offset of BASE.
pub const UP_BASE: usize = 8;

/// Offset of STATE; zero while interpreting.
pub const UP_STATE: usize = 16;

/// Offset of LATEST, the last word defined.
pub const UP_LATEST: usize = 24;

/// Offset of >IN.
pub const UP_IN: usize = 32;

pub const UP_SOURCE_ADDR: usize = 40;

pub const UP_SOURCE_LEN: usize = 48;

/// Offset of the address of the terminal input buffer.
pub const UP_TIB: usize = 56;

/// Offset of its capacity.
pub const UP_NTIB: usize = 64;

/// Offset of HLD, for pictured output.
pub const UP_HLD: usize = 72;

/// Offset of HANDLER, the innermost CATCH frame.
pub const UP_HANDLER: usize = 80;

/// Bytes of the user area.
pub const UP_SIZE: usize = 128;

/// The cell of the user area at byte offset `up` when the kernel starts.
pub open spec fn initial_cell(up: int, dict: u64, latest: u64, tib: u64) -> u64 {
    if up == UP_DP {
        dict
    } else if up == UP_BASE {
        10
    } else if up == UP_LATEST {
        latest
    } else if up == UP_TIB {
        tib
    } else if up == UP_NTIB {
        TIB_SIZE as u64
    } else {
        0
    }
}

/// The user area when the kernel starts: decimal, interpreting, with an empty source, the
/// dictionary at `dict`, the last kernel word at `latest` and the input buffer at `tib`.
pub fn user_area(dict: u64, latest: u64, tib: u64) -> (cells: Vec<u64>)
    ensures
        cells@.len() * 8 == UP_SIZE,
        forall|i: int|
            0 <= i < cells@.len() ==> #[trigger] cells@[i] == initial_cell(8 * i, dict, latest, tib),
{
    let mut cells: Vec<u64> = vec![0u64; UP_SIZE / 8];
    cells.set(UP_DP / 8, dict);
    cells.set(UP_BASE / 8, 10);
    cells.set(UP_STATE / 8, 0);
    cells.set(UP_LATEST / 8, latest);
    cells.set(UP_IN / 8, 0);
    cells.set(UP_SOURCE_ADDR / 8, 0);
    cells.set(UP_SOURCE_LEN / 8, 0);
    cells.set(UP_TIB / 8, tib);
    cells.set(UP_NTIB / 8, TIB_SIZE as u64);
    cells.set(UP_HLD / 8, 0);
    cells.set(UP_HANDLER / 8, 0);
    cells
}

/// The data stack pointer of an empty stack whose buffer starts at `base`: one past its end.
pub fn initial_dsp(base: u64) -> (dsp: u64)
    requires
        base + 8 * DATA_STACK_CELLS <= u64::MAX,
    ensures
        dsp == base + 8 * DATA_STACK_CELLS,
{
    base + 8 * DATA_STACK_CELLS as u64
}

/// A host function that the kernel may declare.
#[derive(Clone, Copy, Debug, PartialEq, Eq, Structural)]
pub enum HostFn {
    /// Print one character.
    Emit,
    /// Read one character.
    Key,
    /// Read a line.
    Accept,
    /// End the process.
    Bye,
}

/// The host function of this name.
pub open spec fn host_fn(name: Seq<char>) -> Option<HostFn> {
    if name == "rt_emit"@ {
        Some(HostFn::Emit)
    } else if name == "rt_key"@ {
        Some(HostFn::Key)
    } else if name == "rt_accept"@ {
        Some(HostFn::Accept)
    } else if name == "rt_bye"@ {
        Some(HostFn::Bye)
    } else {
        None
    }
}

/// Finds a host function by name.
pub fn runtime_fn(name: &str) -> (f: Option<HostFn>)
    ensures
        f == host_fn(name@),
{
    if same_text(name, "rt_emit") {
        Some(HostFn::Emit)
    } else if same_text(name, "rt_key") {
        Some(HostFn::Key)
    } else if same_text(name, "rt_accept") {
        Some(HostFn::Accept)
    } else if same_text(name, "rt_bye") {
        Some(HostFn::Bye)
    } else {
        None
    }
}

/// How many arguments a host function takes.
pub open spec fn host_args(f: HostFn) -> usize {
    match f {
        HostFn::Emit => 1,
        HostFn::Key => 0,
        HostFn::Accept => 2,
        HostFn::Bye => 0,
    }
}

impl HostFn {
    /// How many arguments the function takes.
    pub fn arg_count(self) -> (n: usize)
        ensures
            n == host_args(self),
    {
        match self {
            HostFn::Emit => 1,
            HostFn::Key => 0,
            HostFn::Accept => 2,
            HostFn::Bye => 0,
        }
    }
}

/// The kernel declares a function that the host does not have.
#[derive(Debug, Clone, PartialEq, Eq)]
pub struct NoHostFn {
    pub name: String,
}

impl NoHostFn {
    /// What the error says.
    pub open spec fn text(self) -> Seq<char> {
        "kernel declares @extern `"@ + self.name@ + "` but runtime has no entry for it"@
    }

    pub fn message(&self) -> (s: String)
        ensures
            s@ == self.text(),
    {
        let mut out = String::new();
        out.append("kernel declares @extern `");
        out.append(self.name.as_str());
        out.append("` but runtime has no entry for it");
        assert(out@ =~= self.text());
        out
    }
}

/// The host function to define for a declared extern, and the number of arguments to define it
/// with, which is the function's own. None for a function of a library.
pub fn host_entry(e: &Extern) -> (r: Result<Option<(HostFn, usize)>, NoHostFn>)
    ensures
        match (e.dll, host_fn(e.name@)) {
            (Some(_), _) => r == Ok::<Option<(HostFn, usize)>, NoHostFn>(None),
            (None, Some(f)) => r == Ok::<Option<(HostFn, usize)>, NoHostFn>(
                Some((f, host_args(f))),
            ),
            (None, None) => r == Err::<Option<(HostFn, usize)>, NoHostFn>(
                NoHostFn { name: e.name },
            ),
        },
{
    if e.dll.is_some() {
        return Ok(None);
    }
    match runtime_fn(e.name.as_str()) {
        Some(f) => Ok(Some((f, f.arg_count()))),
        None => Err(NoHostFn { name: e.name.clone() }),
    }
}

/// A line being read for ACCEPT.
#[derive(Debug)]
pub struct Accept {
    /// Most bytes to take.
    pub max: usize,
    pub line: Vec<u8>,
    /// No further byte is to be read.
    pub done: bool,
}

/// A byte that ends a line.
pub open spec fn ends_line(b: u8) -> bool {
    b == 10 || b == 13
}

/// The line that ACCEPT takes from `input`: up to `max` bytes, up to the end of the line.
pub open spec fn accepted(input: Seq<u8>, max: int) -> Seq<u8>
    decreases input.len(),
{
    if input.len() == 0 || max <= 0 || ends_line(input[0]) {
        Seq::empty()
    } else {
        seq![input[0]] + accepted(input.skip(1), max - 1)
    }
}

impl Accept {
    pub open spec fn wf(&self) -> bool {
        &&& self.line@.len() <= self.max
        &&& !self.done ==> self.line@.len() < self.max
    }

    /// What the line becomes when `input` is what is still to be read.
    pub open spec fn outcome(&self, input: Seq<u8>) -> Seq<u8> {
        if self.done {
            self.line@
        } else {
            self.line@ + accepted(input, self.max - self.line@.len())
        }
    }

    /// What taking a byte, or the end of the input, does.
    pub open spec fn fed(before: Accept, after: Accept, byte: Option<u8>) -> bool {
        &&& after.max == before.max
        &&& match byte {
            Some(b) => {
                &&& after.line@ == if ends_line(b) {
                    before.line@
                } else {
                    before.line@.push(b)
                }
                &&& after.done == (ends_line(b) || after.line@.len() == before.max)
            },
            None => after.line@ == before.line@ && after.done,
        }
    }

    pub fn new(max: usize) -> (a: Accept)
        ensures
            a.wf(),
            a.max == max,
            a.line@ == Seq::<u8>::empty(),
            a.done == (max == 0),
            forall|input: Seq<u8>| #[trigger] a.outcome(input) == accepted(input, max as int),
    {
        let a = Accept { max, line: Vec::new(), done: max == 0 };
        proof {
            assert forall|input: Seq<u8>| #[trigger] a.outcome(input) == accepted(
                input,
                max as int,
            ) by {
                assert(a.outcome(input) =~= accepted(input, max as int));
            }
        }
        a
    }

    /// Takes the next byte; none means that the input has ended or failed. Whatever follows, the
    /// line comes out as if all of the input had been there.
    pub fn feed(&mut self, byte: Option<u8>)
        requires
            old(self).wf(),
            !old(self).done,
        ensures
            final(self).wf(),
            Accept::fed(*old(self), *final(self), byte),
            match byte {
                Some(b) => forall|rest: Seq<u8>| #[trigger]
                    final(self).outcome(rest) == old(self).outcome(seq![b] + rest),
                None => forall|rest: Seq<u8>| #[trigger]
                    final(self).outcome(rest) == old(self).outcome(Seq::empty()),
            },
    {
        match byte {
            Some(b) => {
                if b == 10 || b == 13 {
                    self.done = true;
                } else {
                    self.line.push(b);
                    self.done = self.line.len() == self.max;
                }
                proof {
                    assert forall|rest: Seq<u8>| #[trigger]
                        self.outcome(rest) == old(self).outcome(seq![b] + rest) by {
                        let all = seq![b] + rest;
                        assert(all.skip(1) =~= rest);
                        assert(self.outcome(rest) =~= old(self).outcome(all));
                    }
                }
            },
            None => {
                self.done = true;
                proof {
                    assert forall|rest: Seq<u8>| #[trigger]
                        self.outcome(rest) == old(self).outcome(Seq::empty()) by {
                        assert(self.outcome(rest) =~= old(self).outcome(Seq::empty()));
                    }
                }
            },
        }
    }
}

/// `line` is the longest prefix of `input` that has at most `max` bytes and no line feed and no
/// carriage return among them. Every other byte is kept as it is.
pub open spec fn longest_line(line: Seq<u8>, input: Seq<u8>, max: int) -> bool {
    &&& line.len() <= max
    &&& line.len() <= input.len()
    &&& forall|i: int|
        0 <= i < line.len() ==> #[trigger] line[i] == input[i] && line[i] != 10 && line[i] != 13
    &&& line.len() == max || line.len() == input.len() || input[line.len() as int] == 10
        || input[line.len() as int] == 13
}

/// The line that ACCEPT takes is the longest prefix of the input that fits and holds neither a
/// line feed nor a carriage return.
pub proof fn accepted_is_the_longest_line(input: Seq<u8>, max: int)
    requires
        0 <= max,
    ensures
        longest_line(accepted(input, max), input, max),
    decreases input.len(),
{
    if input.len() > 0 && max > 0 && input[0] != 10 && input[0] != 13 {
        let rest = input.skip(1);
        accepted_is_the_longest_line(rest, max - 1);
        let line = accepted(input, max);
        let tail = accepted(rest, max - 1);
        assert forall|i: int| 0 <= i < line.len() implies #[trigger] line[i] == input[i]
            && line[i] != 10 && line[i] != 13 by {
            if i > 0 {
                assert(line[i] == tail[i - 1]);
                assert(rest[i - 1] == input[i]);
            }
        }
        assert(tail.len() < rest.len() ==> rest[tail.len() as int] == input[line.len() as int]);
    }
}

/// There is only one such prefix.
pub proof fn longest_line_is_unique(a: Seq<u8>, b: Seq<u8>, input: Seq<u8>, max: int)
    requires
        longest_line(a, input, max),
        longest_line(b, input, max),
    ensures
        a == b,
{
    if a.len() < b.len() {
        assert(b[a.len() as int] == input[a.len() as int]);
    } else if b.len() < a.len() {
        assert(a[b.len() as int] == input[b.len() as int]);
    }
    assert(a =~= b);
}

/// The reading is not done in its `k`th state, and takes the `k`th byte of `input` there.
pub open spec fn reads(states: Seq<Accept>, input: Seq<u8>, k: int) -> bool {
    !states[k].done && Accept::fed(states[k], states[k + 1], Some(input[k]))
}

/// A reading that takes the bytes of `input` one by one, and is not done before the last of them,
/// has the longest line that fits. It is done when the line is full, or its end was among the
/// bytes.
pub proof fn reading_gives_the_longest_line(states: Seq<Accept>, input: Seq<u8>)
    requires
        states.len() == input.len() + 1,
        states[0].line@.len() == 0,
        states[0].done == (states[0].max == 0),
        forall|k: int| 0 <= k < input.len() ==> #[trigger] reads(states, input, k),
    ensures
        longest_line(states.last().line@, input, states[0].max as int),
        states.last().done == (states.last().line@.len() == states[0].max || (input.len() > 0 && (
        input.last() == 10 || input.last() == 13))),
        !states.last().done ==> states.last().line@ == input,
        states.last().max == states[0].max,
    decreases input.len(),
{
    if input.len() > 0 {
        let n = input.len() - 1;
        let fewer = states.drop_last();
        let bytes = input.drop_last();
        assert forall|k: int| 0 <= k < bytes.len() implies #[trigger] reads(fewer, bytes, k) by {
            assert(reads(states, input, k));
        }
        reading_gives_the_longest_line(fewer, bytes);
        assert(reads(states, input, n));
        let was = states[n].line@;
        let now = states[n + 1].line@;
        assert forall|i: int| 0 <= i < now.len() implies #[trigger] now[i] == input[i] && now[i]
            != 10 && now[i] != 13 by {
            if i < n {
                assert(now[i] == was[i]);
            }
        }
        if !states[n + 1].done {
            assert(now =~= input);
        }
    } else {
        assert(states[0].line@ =~= input);
    }
}

/// What ACCEPT comes to depends on what is still to be read in one way only: the longest line of
/// it goes behind what is there. Nothing does once it is done.
pub proof fn reading_goes_on_with_the_longest_line(a: Accept, input: Seq<u8>)
    requires
        a.wf(),
    ensures
        a.done ==> a.outcome(input) == a.line@,
        !a.done ==> a.outcome(input).len() >= a.line@.len() && a.outcome(input).take(
            a.line@.len() as int,
        ) == a.line@ && longest_line(
            a.outcome(input).skip(a.line@.len() as int),
            input,
            a.max - a.line@.len(),
        ),
{
    if !a.done {
        let more = accepted(input, a.max - a.line@.len());
        accepted_is_the_longest_line(input, a.max - a.line@.len());
        assert(a.outcome(input).take(a.line@.len() as int) =~= a.line@);
        assert(a.outcome(input).skip(a.line@.len() as int) =~= more);
    }
}

/// What the kernel finds in its user area: the dictionary pointer first, then the number base ten,
/// the last word at byte 24, the input buffer and its size at bytes 56 and 64, and zeros.
pub proof fn user_area_starts_decimal_and_interpreting(dict: u64, latest: u64, tib: u64)
    ensures
        initial_cell(0, dict, latest, tib) == dict,
        initial_cell(8, dict, latest, tib) == 10,
        initial_cell(24, dict, latest, tib) == latest,
        initial_cell(56, dict, latest, tib) == tib,
        initial_cell(64, dict, latest, tib) == 1024,
        forall|up: int|
            up != 0 && up != 8 && up != 24 && up != 56 && up != 64 ==> #[trigger] initial_cell(
                up,
                dict,
                latest,
                tib,
            ) == 0,
{
}

/// A name stands for at most one host function, each host function has one name, and no other name
/// has any.
pub proof fn host_functions_have_one_name(name: Seq<char>)
    ensures
        host_fn(name) is Some <==> name == "rt_emit"@ || name == "rt_key"@ || name == "rt_accept"@
            || name == "rt_bye"@,
        host_fn(name) == Some(HostFn::Emit) <==> name == "rt_emit"@,
        host_fn(name) == Some(HostFn::Key) <==> name == "rt_key"@,
        host_fn(name) == Some(HostFn::Accept) <==> name == "rt_accept"@,
        host_fn(name) == Some(HostFn::Bye) <==> name == "rt_bye"@,
        host_args(HostFn::Emit) == 1,
        host_args(HostFn::Key) == 0,
        host_args(HostFn::Accept) == 2,
        host_args(HostFn::Bye) == 0,
{
    reveal_strlit("rt_emit");
    reveal_strlit("rt_key");
    reveal_strlit("rt_accept");
    reveal_strlit("rt_bye");
    assert("rt_emit"@[3] == 'e' && "rt_key"@[3] == 'k' && "rt_accept"@[3] == 'a' && "rt_bye"@[3]
        == 'b');
}

/// The sizes of what the kernel works on: a data stack of 32 KiB, a dictionary of 1 MiB, an input
/// buffer of 1 KiB, and a user area of 128 bytes.
pub proof fn kernel_memory()
    ensures
        8 * DATA_STACK_CELLS == 0x8000,
        DICT_SPACE_BYTES == 0x10_0000,
        TIB_SIZE == 0x400,
        UP_SIZE == 128,
{
}

} // verus!
