//! Binding declared externs to functions of Windows libraries and of the host.
//!
//! Each extern with a library is looked up there; the library is loaded once and stays loaded.
//! Each extern without one is a function of the host. The host performs what a [`Binder`] asks
//! for and reports back:
//!
//! * A library that cannot be loaded is fatal: nothing else from it would work either.
//! * A function that a library does not export is not: it is noted in the report and skipped.
//! * A host function that is not there is fatal.

use vstd::prelude::*;
use vstd::string::*;

use crate::names::NameMap;
use crate::text::{decimal, has_nul, holds_nul, push_decimal};

verus! {

#[derive(Debug, Clone, PartialEq, Eq)]
pub enum BindError {
    LoadLibrary { dll: String, win_error: u32 },
    GetProcAddress { dll: String, name: String, win_error: u32 },
    UnresolvedHostExtern { name: String },
    Loader(String),
    Cstring(String),
}

impl BindError {
    /// What the error says.
    pub open spec fn text(self) -> Seq<char> {
        match self {
            BindError::LoadLibrary { dll, win_error } => "LoadLibraryW(\""@ + dll@
                + "\") failed (GetLastError = "@ + decimal(win_error as nat) + ")"@,
            BindError::GetProcAddress { dll, name, win_error } => "GetProcAddress(\""@ + name@
                + "\") in \""@ + dll@ + "\" failed (GetLastError = "@ + decimal(win_error as nat)
                + ")"@,
            BindError::UnresolvedHostExtern { name } => "@extern `"@ + name@
                + "` has no DLL string and the resolver returned None"@,
            BindError::Loader(e) => "loader bind failed: "@ + e@,
            BindError::Cstring(s) => "name `"@ + s@ + "` contains an interior NUL"@,
        }
    }

    pub fn message(&self) -> (s: String)
        ensures
            s@ == self.text(),
    {
        let mut out = String::new();
        match self {
            BindError::LoadLibrary { dll, win_error } => {
                out.append("LoadLibraryW(\"");
                out.append(dll.as_str());
                out.append("\") failed (GetLastError = ");
                push_decimal(&mut out, *win_error as u64);
                out.append(")");
            },
            BindError::GetProcAddress { dll, name, win_error } => {
                out.append("GetProcAddress(\"");
                out.append(name.as_str());
                out.append("\") in \"");
                out.append(dll.as_str());
                out.append("\" failed (GetLastError = ");
                push_decimal(&mut out, *win_error as u64);
                out.append(")");
            },
            BindError::UnresolvedHostExtern { name } => {
                out.append("@extern `");
                out.append(name.as_str());
                out.append("` has no DLL string and the resolver returned None");
            },
            BindError::Loader(e) => {
                out.append("loader bind failed: ");
                out.append(e.as_str());
            },
            BindError::Cstring(s) => {
                out.append("name `");
                out.append(s.as_str());
                out.append("` contains an interior NUL");
            },
        }
        assert(out@ =~= self.text());
        out
    }
}

/// What binding came to.
#[derive(Debug)]
pub struct BindReport {
    /// Number of externs that were registered with the loader.
    pub bound: usize,
    /// `(name, dll, win_error)` for each extern that its library does not export.
    pub missing_proc: Vec<(String, String, u32)>,
}

impl Default for BindReport {
    fn default() -> (r: BindReport)
        ensures
            r.bound == 0,
            r.missing_proc@ == Seq::<(String, String, u32)>::empty(),
    {
        BindReport { bound: 0, missing_proc: Vec::new() }
    }
}

/// A declared extern.
#[derive(Debug, Clone)]
pub struct Extern {
    pub name: String,
    pub arg_count: usize,
    /// The library it comes from; none for a function of the host.
    pub dll: Option<String>,
}

/// What a [`Binder`] asks of the host.
#[derive(Debug, PartialEq, Eq)]
pub enum BindAction {
    /// Load a library, and report to [`Binder::library_loaded`].
    Load { dll: String },
    /// Look up a function, and report to [`Binder::proc_found`].
    GetProc { module: u64, name: String },
    /// Ask for a function of the host, and report to [`Binder::host_answered`].
    AskHost { name: String },
    /// Register an address with the loader, and report to [`Binder::defined`].
    Define { name: String, arg_count: usize, addr: u64 },
    /// All externs have been dealt with.
    Done,
}

/// The state of binding: the externs, how many have been dealt with, the libraries loaded so far
/// and the report.
pub struct Binder {
    pub externs: Vec<Extern>,
    pub next: usize,
    pub loaded: NameMap<u64>,
    pub report: BindReport,
}

/// The lookup of an extern in its library, which is loaded at `module`.
pub open spec fn fetch(e: Extern, module: u64) -> Result<BindAction, BindError> {
    if holds_nul(e.name@) {
        Err(BindError::Cstring(e.name))
    } else {
        Ok(BindAction::GetProc { module, name: e.name })
    }
}

/// What is to be done for the next extern.
pub open spec fn next_action(b: Binder) -> Result<BindAction, BindError> {
    if b.next >= b.externs@.len() {
        Ok(BindAction::Done)
    } else {
        let e = b.externs@[b.next as int];
        match e.dll {
            None => Ok(BindAction::AskHost { name: e.name }),
            Some(dll) => if b.loaded@.dom().contains(dll@) {
                fetch(e, b.loaded@[dll@])
            } else {
                Ok(BindAction::Load { dll })
            },
        }
    }
}

/// A library is asked for once: not again after it was loaded.
pub proof fn library_is_asked_for_once(b: Binder, dll: String)
    requires
        b.loaded@.dom().contains(dll@),
    ensures
        next_action(b) matches Ok(BindAction::Load { dll: other }) ==> other@ != dll@,
{
}

/// When all is done, every extern is bound or reported missing.
pub proof fn every_extern_is_accounted_for(b: Binder)
    requires
        b.wf(),
        next_action(b) == Ok::<BindAction, BindError>(BindAction::Done),
    ensures
        b.report.bound + b.report.missing_proc@.len() == b.externs@.len(),
{
}

impl Binder {
    /// Every extern dealt with is bound or missing.
    pub open spec fn wf(&self) -> bool {
        &&& self.loaded.wf()
        &&& self.next <= self.externs.len()
        &&& self.report.bound + self.report.missing_proc@.len() == self.next
    }

    /// The extern that is being dealt with.
    pub open spec fn current(&self) -> Extern {
        self.externs@[self.next as int]
    }

    /// What becomes of a library that was loaded at `module`; zero means that it was not.
    pub open spec fn loading(
        before: Binder,
        after: Binder,
        module: u64,
        win_error: u32,
        r: Result<BindAction, BindError>,
    ) -> bool {
        let dll = before.current().dll->Some_0;
        if module == 0 {
            r == Err::<BindAction, BindError>(BindError::LoadLibrary { dll, win_error }) && after
                == before
        } else {
            &&& r == fetch(before.current(), module)
            &&& after.loaded@ == before.loaded@.insert(dll@, module)
            &&& after == (Binder { loaded: after.loaded, ..before })
        }
    }

    /// What becomes of a function that was found at `addr`; zero means that it was not.
    pub open spec fn finding(
        before: Binder,
        after: Binder,
        addr: u64,
        win_error: u32,
        r: Result<BindAction, BindError>,
    ) -> bool {
        let e = before.current();
        if addr == 0 {
            &&& r == next_action(after)
            &&& after.next == before.next + 1
            &&& after.report.bound == before.report.bound
            &&& after.report.missing_proc@ == before.report.missing_proc@.push(
                (e.name, e.dll->Some_0, win_error),
            )
            &&& after.externs == before.externs
            &&& after.loaded == before.loaded
        } else {
            &&& r == Ok::<BindAction, BindError>(
                BindAction::Define { name: e.name, arg_count: e.arg_count, addr },
            )
            &&& after == before
        }
    }

    /// What becomes of the host's answer.
    pub open spec fn answering(
        b: Binder,
        addr: Option<u64>,
        r: Result<BindAction, BindError>,
    ) -> bool {
        match addr {
            Some(addr) => r == Ok::<BindAction, BindError>(
                BindAction::Define {
                    name: b.current().name,
                    arg_count: b.current().arg_count,
                    addr,
                },
            ),
            None => r == Err::<BindAction, BindError>(
                BindError::UnresolvedHostExtern { name: b.current().name },
            ),
        }
    }

    /// What becomes of the loader's answer.
    pub open spec fn defining(
        before: Binder,
        after: Binder,
        outcome: Result<(), String>,
        r: Result<BindAction, BindError>,
    ) -> bool {
        match outcome {
            Err(e) => r == Err::<BindAction, BindError>(BindError::Loader(e)) && after == before,
            Ok(_) => {
                &&& r == next_action(after)
                &&& after.next == before.next + 1
                &&& after.report.bound == before.report.bound + 1
                &&& after.report.missing_proc == before.report.missing_proc
                &&& after.externs == before.externs
                &&& after.loaded == before.loaded
            },
        }
    }

    pub fn new(externs: Vec<Extern>) -> (b: Binder)
        ensures
            b.wf(),
            b.externs == externs,
            b.next == 0,
            b.loaded@ == Map::<Seq<char>, u64>::empty(),
            b.report.bound == 0,
            b.report.missing_proc@ == Seq::<(String, String, u32)>::empty(),
    {
        Binder {
            externs,
            next: 0,
            loaded: NameMap::new(),
            report: BindReport::default(),
        }
    }

    /// What is to be done for the next extern.
    pub fn action(&self) -> (r: Result<BindAction, BindError>)
        requires
            self.wf(),
        ensures
            r == next_action(*self),
    {
        if self.next >= self.externs.len() {
            return Ok(BindAction::Done);
        }
        let e: &Extern = &self.externs[self.next];
        match &e.dll {
            None => Ok(BindAction::AskHost { name: e.name.clone() }),
            Some(dll) => match self.loaded.get(dll.as_str()) {
                Some(module) => self.fetch_current(*module),
                None => Ok(BindAction::Load { dll: dll.clone() }),
            },
        }
    }

    fn fetch_current(&self, module: u64) -> (r: Result<BindAction, BindError>)
        requires
            self.next < self.externs.len(),
        ensures
            r == fetch(self.current(), module),
    {
        let e: &Extern = &self.externs[self.next];
        if has_nul(e.name.as_str()) {
            Err(BindError::Cstring(e.name.clone()))
        } else {
            Ok(BindAction::GetProc { module, name: e.name.clone() })
        }
    }

    /// The library of the current extern was loaded at `module`; zero means that it was not.
    pub fn library_loaded(&mut self, module: u64, win_error: u32) -> (r: Result<
        BindAction,
        BindError,
    >)
        requires
            old(self).wf(),
            old(self).next < old(self).externs.len(),
            old(self).current().dll is Some,
        ensures
            final(self).wf(),
            Binder::loading(*old(self), *final(self), module, win_error, r),
    {
        if let Some(dll) = &self.externs[self.next].dll {
            if module == 0 {
                return Err(BindError::LoadLibrary { dll: dll.clone(), win_error });
            }
            self.loaded.insert(dll.clone(), module);
        }
        self.fetch_current(module)
    }

    /// The current extern was found in its library at `addr`; zero means that the library does
    /// not export it.
    pub fn proc_found(&mut self, addr: u64, win_error: u32) -> (r: Result<BindAction, BindError>)
        requires
            old(self).wf(),
            old(self).next < old(self).externs.len(),
            old(self).current().dll is Some,
        ensures
            final(self).wf(),
            Binder::finding(*old(self), *final(self), addr, win_error, r),
    {
        if addr != 0 {
            return self.define_current(addr);
        }
        let e: &Extern = &self.externs[self.next];
        if let Some(dll) = &e.dll {
            self.report.missing_proc.push((e.name.clone(), dll.clone(), win_error));
        }
        self.next = self.next + 1;
        self.action()
    }

    fn define_current(&self, addr: u64) -> (r: Result<BindAction, BindError>)
        requires
            self.next < self.externs.len(),
        ensures
            r == Ok::<BindAction, BindError>(
                BindAction::Define {
                    name: self.current().name,
                    arg_count: self.current().arg_count,
                    addr,
                },
            ),
    {
        let e: &Extern = &self.externs[self.next];
        Ok(BindAction::Define { name: e.name.clone(), arg_count: e.arg_count, addr })
    }

    /// The host has the current extern at `addr`, or does not have it.
    pub fn host_answered(&self, addr: Option<u64>) -> (r: Result<BindAction, BindError>)
        requires
            self.wf(),
            self.next < self.externs.len(),
        ensures
            Binder::answering(*self, addr, r),
    {
        match addr {
            Some(addr) => self.define_current(addr),
            None => Err(
                BindError::UnresolvedHostExtern { name: self.externs[self.next].name.clone() },
            ),
        }
    }

    /// The current extern was registered with the loader, or the loader refused it with a message.
    pub fn defined(&mut self, outcome: Result<(), String>) -> (r: Result<BindAction, BindError>)
        requires
            old(self).wf(),
            old(self).next < old(self).externs.len(),
        ensures
            final(self).wf(),
            Binder::defining(*old(self), *final(self), outcome, r),
    {
        match outcome {
            Err(e) => Err(BindError::Loader(e)),
            Ok(_) => {
                self.report.bound = self.report.bound + 1;
                self.next = self.next + 1;
                self.action()
            },
        }
    }
}

/// What is to be done next is about the next extern: a function of the host is asked for, and one
/// of a library is looked up there, by its own name, once the library is loaded. Only a name that no
/// C string can hold is refused. It is all done when there is no next extern.
pub proof fn next_action_is_about_the_next_extern(b: Binder)
    requires
        b.wf(),
    ensures
        next_action(b) == Ok::<BindAction, BindError>(BindAction::Done) <==> b.next
            == b.externs@.len(),
        b.next < b.externs@.len() ==> {
            let e = b.externs@[b.next as int];
            match next_action(b) {
                Ok(BindAction::AskHost { name }) => e.dll is None && name == e.name,
                Ok(BindAction::Load { dll }) => e.dll == Some(dll) && !b.loaded@.dom().contains(
                    dll@,
                ),
                Ok(BindAction::GetProc { module, name }) => name == e.name && !holds_nul(e.name@)
                    && (e.dll matches Some(dll) && b.loaded@.dom().contains(dll@) && module
                    == b.loaded@[dll@]),
                Err(BindError::Cstring(s)) => s == e.name && holds_nul(e.name@) && (
                e.dll matches Some(dll) && b.loaded@.dom().contains(dll@)),
                _ => false,
            }
        },
{
}

/// A function of a library that is found is defined under the name and with the arguments that its
/// extern declares, at the address where it was found, and then counts as bound: the next extern is
/// taken up.
pub proof fn found_functions_are_bound(
    a: Binder,
    b: Binder,
    c: Binder,
    addr: u64,
    win_error: u32,
    found: Result<BindAction, BindError>,
    next: Result<BindAction, BindError>,
)
    requires
        a.wf(),
        a.next < a.externs@.len(),
        a.current().dll is Some,
        addr != 0,
        Binder::finding(a, b, addr, win_error, found),
        Binder::defining(b, c, Ok(()), next),
    ensures
        found matches Ok(BindAction::Define { name, arg_count, addr: at }) && name
            == a.externs@[a.next as int].name && arg_count == a.externs@[a.next as int].arg_count
            && at == addr,
        c.next == a.next + 1,
        c.report.bound == a.report.bound + 1,
        c.report.missing_proc == a.report.missing_proc,
        c.externs == a.externs,
        next == next_action(c),
{
}

/// A function of the host is asked for by its name, and what the host answers is defined in the
/// same way; without an answer binding ends.
pub proof fn host_functions_are_bound(
    a: Binder,
    addr: Option<u64>,
    answer: Result<BindAction, BindError>,
)
    requires
        a.wf(),
        a.next < a.externs@.len(),
        a.current().dll is None,
        Binder::answering(a, addr, answer),
    ensures
        next_action(a) == Ok::<BindAction, BindError>(
            BindAction::AskHost { name: a.externs@[a.next as int].name },
        ),
        addr matches Some(x) ==> (answer matches Ok(BindAction::Define { name, arg_count, addr: at })
            && name == a.externs@[a.next as int].name && arg_count
            == a.externs@[a.next as int].arg_count && at == x),
        addr is None ==> (answer matches Err(BindError::UnresolvedHostExtern { name }) && name
            == a.externs@[a.next as int].name),
{
}

/// A function that its library does not export is noted with its name, its library and the error,
/// and passed over: the next extern is taken up, and nothing counts as bound.
pub proof fn missing_functions_are_noted(
    a: Binder,
    b: Binder,
    win_error: u32,
    next: Result<BindAction, BindError>,
)
    requires
        a.wf(),
        a.next < a.externs@.len(),
        a.current().dll is Some,
        Binder::finding(a, b, 0, win_error, next),
    ensures
        b.report.missing_proc@.len() == a.report.missing_proc@.len() + 1,
        b.report.missing_proc@.last().0 == a.externs@[a.next as int].name,
        Some(b.report.missing_proc@.last().1) == a.externs@[a.next as int].dll,
        b.report.missing_proc@.last().2 == win_error,
        forall|i: int|
            0 <= i < a.report.missing_proc@.len() ==> #[trigger] b.report.missing_proc@[i]
                == a.report.missing_proc@[i],
        b.report.bound == a.report.bound,
        b.next == a.next + 1,
        b.externs == a.externs,
        next == next_action(b),
{
}

/// A library that is loaded serves every extern that names it: its functions are looked up there,
/// in the module where it was loaded. One that cannot be loaded ends binding.
pub proof fn loaded_libraries_serve_their_externs(
    a: Binder,
    b: Binder,
    module: u64,
    win_error: u32,
    r: Result<BindAction, BindError>,
)
    requires
        a.wf(),
        a.next < a.externs@.len(),
        a.current().dll is Some,
        Binder::loading(a, b, module, win_error, r),
    ensures
        module == 0 ==> b == a && (r matches Err(BindError::LoadLibrary { dll, win_error: e })
            && Some(dll) == a.externs@[a.next as int].dll && e == win_error),
        module != 0 ==> r == next_action(b) && b.next == a.next && b.externs == a.externs && b.report
            == a.report,
        module != 0 && !holds_nul(a.current().name@) ==> r == Ok::<BindAction, BindError>(
            BindAction::GetProc { module, name: a.externs@[a.next as int].name },
        ),
        module != 0 ==> forall|dll: Seq<char>|
            dll != a.current().dll->Some_0@ && #[trigger] a.loaded@.dom().contains(dll)
                ==> b.loaded@.dom().contains(dll) && b.loaded@[dll] == a.loaded@[dll],
{
}

} // verus!
