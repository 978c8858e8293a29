//! The life of an MCJIT module.
//!
//! A module is built up (text is appended, functions are declared, host functions are queued for
//! mapping) until the first lookup. Then it is handed to MCJIT, which compiles all of it and owns
//! it from there on: nothing can be added any more. The host makes the LLVM calls; what may be
//! called when, and what is to be made of the outcome, is settled here. LLVM objects go by their
//! handles, which are never zero.

use vstd::prelude::*;
use vstd::string::*;

use crate::names::NameMap;
use crate::text::{debug_text, decimal, has_nul, holds_nul, join, joined, push_decimal, quoted};
use crate::win32::Extern;

verus! {

#[derive(Debug, Clone, PartialEq, Eq)]
pub enum JitError {
    Llvm(String),
    NotFound(String),
    Nul(String),
    AlreadyFinalized,
    /// An extern is declared with another number of arguments than its function was defined with.
    ArgCount { name: String, declared: usize, defined: usize },
}

impl JitError {
    /// What the error says.
    pub open spec fn text(self) -> Seq<char> {
        match self {
            JitError::Llvm(s) => "LLVM error: "@ + s@,
            JitError::NotFound(s) => "symbol `"@ + s@ + "` not found"@,
            JitError::Nul(s) => nul_text(debug_text(s@)),
            JitError::AlreadyFinalized =>
                "JIT module already finalized; further add_asm/define_extern_fn not allowed"@,
            JitError::ArgCount { name, declared, defined } => "@extern `"@ + name@ + "` declares "@
                + decimal(declared as nat) + " argument(s), but define_extern_fn gave it "@
                + decimal(defined as nat),
        }
    }

    pub fn message(&self) -> (s: String)
        ensures
            s@ == self.text(),
    {
        let mut out = String::new();
        match self {
            JitError::Llvm(s) => {
                out.append("LLVM error: ");
                out.append(s.as_str());
            },
            JitError::NotFound(s) => {
                out.append("symbol `");
                out.append(s.as_str());
                out.append("` not found");
            },
            JitError::Nul(s) => {
                return nul_message(quoted(s.as_str()).as_str());
            },
            JitError::AlreadyFinalized => {
                out.append(
                    "JIT module already finalized; further add_asm/define_extern_fn not allowed",
                );
            },
            JitError::ArgCount { name, declared, defined } => {
                out.append("@extern `");
                out.append(name.as_str());
                out.append("` declares ");
                push_decimal(&mut out, *declared as u64);
                out.append(" argument(s), but define_extern_fn gave it ");
                push_decimal(&mut out, *defined as u64);
            },
        }
        assert(out@ =~= self.text());
        out
    }
}

pub open spec fn nul_text(shown: Seq<char>) -> Seq<char> {
    "string "@ + shown + " contained an interior NUL"@
}

/// The message for a string that holds a NUL, given how the string is shown.
pub fn nul_message(shown: &str) -> (s: String)
    ensures
        s@ == nul_text(shown@),
{
    let mut out = String::new();
    out.append("string ");
    out.append(shown);
    out.append(" contained an interior NUL");
    assert(out@ =~= nul_text(shown@));
    out
}

/// How severe an LLVM diagnostic is.
#[derive(Debug, Clone, Copy, PartialEq, Eq, Structural)]
pub enum Severity {
    Error,
    Warning,
    Remark,
    Note,
}

/// What [`Jit::finalize`] asks of the host.
#[derive(Debug, Clone, Copy, PartialEq, Eq, Structural)]
pub enum EngineStep {
    /// The engine is there.
    Ready { engine: u64 },
    /// Create an engine for the module, and report to [`Jit::created`].
    Create { module: u64 },
}

/// What is to be disposed of at the end, besides the context.
#[derive(Debug, Clone, Copy, PartialEq, Eq, Structural)]
pub enum Leftover {
    /// The engine, and with it the module that it owns.
    Engine { engine: u64 },
    /// A module that never was handed over.
    Module { module: u64 },
    Nothing,
}

pub struct Jit {
    /// The module, while it is being built.
    pub module: Option<u64>,
    /// The engine, once the module has been handed over.
    pub engine: Option<u64>,
    /// Host functions to map, as function value and address, once there is an engine.
    pub pending_mappings: Vec<(u64, u64)>,
    /// The number of arguments that each host function was defined with.
    pub arg_counts: NameMap<usize>,
    /// Errors that LLVM reported and that have not been passed on yet.
    pub diag_errors: Vec<String>,
}

/// The extern was defined with another number of arguments than it declares.
pub open spec fn disagrees(e: Extern, counts: Map<Seq<char>, usize>) -> bool {
    counts.dom().contains(e.name@) && counts[e.name@] != e.arg_count
}

/// The first declared extern, from the `i`th on, that was defined with another number of
/// arguments.
pub open spec fn disagreement_from(
    declared: Seq<Extern>,
    counts: Map<Seq<char>, usize>,
    i: int,
) -> Option<int>
    decreases declared.len() - i,
{
    if i >= declared.len() {
        None
    } else if disagrees(declared[i], counts) {
        Some(i)
    } else {
        disagreement_from(declared, counts, i + 1)
    }
}

/// The first declared extern that was defined with another number of arguments.
pub open spec fn first_disagreement(
    declared: Seq<Extern>,
    counts: Map<Seq<char>, usize>,
) -> Option<int> {
    disagreement_from(declared, counts, 0)
}

proof fn lemma_disagreement(declared: Seq<Extern>, counts: Map<Seq<char>, usize>, i: int)
    requires
        0 <= i,
    ensures
        match disagreement_from(declared, counts, i) {
            Some(k) => i <= k < declared.len() && disagrees(declared[k], counts) && forall|j: int|
                i <= j < k ==> !disagrees(#[trigger] declared[j], counts),
            None => forall|j: int|
                i <= j < declared.len() ==> !disagrees(#[trigger] declared[j], counts),
        },
    decreases declared.len() - i,
{
    if i < declared.len() && !disagrees(declared[i], counts) {
        lemma_disagreement(declared, counts, i + 1);
    }
}

/// No extern that disagrees is passed over: text is accepted only where every declared extern
/// that was defined has the number of arguments that it was defined with, and what is reported
/// otherwise is the first that has not.
pub proof fn every_disagreement_is_found(declared: Seq<Extern>, counts: Map<Seq<char>, usize>)
    ensures
        match first_disagreement(declared, counts) {
            Some(k) => 0 <= k < declared.len() && disagrees(declared[k], counts) && forall|j: int|
                0 <= j < k ==> !disagrees(#[trigger] declared[j], counts),
            None => forall|j: int|
                0 <= j < declared.len() ==> !disagrees(#[trigger] declared[j], counts),
        },
        first_disagreement(declared, counts) is None <==> forall|j: int|
            0 <= j < declared.len() && counts.dom().contains((#[trigger] declared[j]).name@)
                ==> counts[declared[j].name@] == declared[j].arg_count,
        first_disagreement(declared, counts) matches Some(k) ==> counts.dom().contains(
            declared[k].name@,
        ) && counts[declared[k].name@] != declared[k].arg_count,
{
    lemma_disagreement(declared, counts, 0);
    if let Some(k) = first_disagreement(declared, counts) {
        assert(disagrees(declared[k], counts));
    } else {
        assert forall|j: int|
            0 <= j < declared.len() && counts.dom().contains(
                (#[trigger] declared[j]).name@,
            ) implies counts[declared[j].name@] == declared[j].arg_count by {
            assert(!disagrees(declared[j], counts));
        }
    }
}

/// The module, while it can still be added to.
pub open spec fn open_module(j: Jit) -> Result<u64, JitError> {
    match j.module {
        Some(m) => Ok(m),
        None => Err(JitError::AlreadyFinalized),
    }
}

/// What asking for the engine does.
pub open spec fn handing_over(before: Jit, after: Jit, r: Result<EngineStep, JitError>) -> bool {
    match (before.engine, before.module) {
        (Some(engine), _) => r == Ok::<EngineStep, JitError>(EngineStep::Ready { engine }) && after
            == before,
        (None, None) => r == Err::<EngineStep, JitError>(JitError::AlreadyFinalized) && after
            == before,
        (None, Some(module)) => r == Ok::<EngineStep, JitError>(EngineStep::Create { module })
            && after == (Jit { module: None, ..before }),
    }
}

/// What becomes of an engine for `module`, or of the failure to create one.
pub open spec fn taking_engine(
    before: Jit,
    after: Jit,
    module: u64,
    rc: i32,
    engine: u64,
    message: Option<String>,
    r: Result<Vec<(u64, u64)>, JitError>,
) -> bool {
    if rc != 0 || engine == 0 {
        &&& after == (Jit { module: Some(module), ..before })
        &&& match message {
            Some(m) => r == Err::<Vec<(u64, u64)>, JitError>(JitError::Llvm(m)),
            None => r matches Err(JitError::Llvm(m)) && m@
                == "LLVMCreateMCJITCompilerForModule failed with no message"@,
        }
    } else {
        &&& r == Ok::<Vec<(u64, u64)>, JitError>(before.pending_mappings)
        &&& after.pending_mappings@ == Seq::<(u64, u64)>::empty()
        &&& after == (Jit {
            module: None,
            engine: Some(engine),
            pending_mappings: after.pending_mappings,
            ..before
        })
    }
}

/// What defining the function `name` does.
pub open spec fn defining(
    before: Jit,
    after: Jit,
    name: Seq<char>,
    arg_count: usize,
    value: u64,
    addr: u64,
    r: Result<(), JitError>,
) -> bool {
    match before.module {
        Some(_) => {
            &&& r is Ok
            &&& after.pending_mappings@ == before.pending_mappings@.push((value, addr))
            &&& after.arg_counts@ == before.arg_counts@.insert(name, arg_count)
            &&& after == (Jit {
                pending_mappings: after.pending_mappings,
                arg_counts: after.arg_counts,
                ..before
            })
        },
        None => r == Err::<(), JitError>(JitError::AlreadyFinalized) && after == before,
    }
}

/// What asking for the module to add text that declares these externs gives.
pub open spec fn adding(j: Jit, declared: Seq<Extern>, r: Result<u64, JitError>) -> bool {
    match j.module {
        None => r == Err::<u64, JitError>(JitError::AlreadyFinalized),
        Some(m) => match first_disagreement(declared, j.arg_counts@) {
            None => r == Ok::<u64, JitError>(m),
            Some(i) => r matches Err(JitError::ArgCount { name, declared: d, defined: f }) && name@
                == declared[i].name@ && d == declared[i].arg_count && f == j.arg_counts@[name@],
        },
    }
}

/// A function that was defined is mapped to its address when the engine comes, behind those that
/// were defined before it.
pub proof fn defined_functions_are_mapped(
    a: Jit,
    b: Jit,
    c: Jit,
    d: Jit,
    name: Seq<char>,
    arg_count: usize,
    value: u64,
    addr: u64,
    module: u64,
    engine: u64,
    message: Option<String>,
    r: Result<Vec<(u64, u64)>, JitError>,
)
    requires
        defining(a, b, name, arg_count, value, addr, Ok(())),
        handing_over(b, c, Ok(EngineStep::Create { module })),
        engine != 0,
        taking_engine(c, d, module, 0, engine, message, r),
    ensures
        Some(module) == a.module,
        r matches Ok(mappings) && mappings@ == a.pending_mappings@.push((value, addr)),
        open_module(d) is Err,
        d.engine == Some(engine),
{
}

/// Text that declares a function with another number of arguments than it was defined with is
/// refused, whatever else it declares.
pub proof fn other_argument_counts_are_refused(
    a: Jit,
    b: Jit,
    name: Seq<char>,
    arg_count: usize,
    value: u64,
    addr: u64,
    declared: Seq<Extern>,
    k: int,
    r: Result<u64, JitError>,
)
    requires
        defining(a, b, name, arg_count, value, addr, Ok(())),
        0 <= k < declared.len(),
        declared[k].name@ == name,
        declared[k].arg_count != arg_count,
        adding(b, declared, r),
    ensures
        r matches Err(JitError::ArgCount { declared: d, defined: f, .. }) && d != f,
{
    every_disagreement_is_found(declared, b.arg_counts@);
    assert(disagrees(declared[k], b.arg_counts@));
}

/// Text is accepted where it declares every function with the number of arguments that it was
/// defined with, or that was not defined at all.
pub proof fn agreeing_text_is_accepted(j: Jit, declared: Seq<Extern>, r: Result<u64, JitError>)
    requires
        adding(j, declared, r),
        forall|k: int|
            0 <= k < declared.len() && j.arg_counts@.dom().contains((#[trigger] declared[k]).name@)
                ==> j.arg_counts@[declared[k].name@] == declared[k].arg_count,
    ensures
        match j.module {
            Some(m) => r == Ok::<u64, JitError>(m),
            None => r == Err::<u64, JitError>(JitError::AlreadyFinalized),
        },
{
    every_disagreement_is_found(declared, j.arg_counts@);
}

/// A handover that fails leaves the loader as it was: the module can be added to, and handed over
/// again.
pub proof fn failed_handover_changes_nothing(
    a: Jit,
    b: Jit,
    c: Jit,
    module: u64,
    rc: i32,
    engine: u64,
    message: Option<String>,
    r: Result<Vec<(u64, u64)>, JitError>,
)
    requires
        handing_over(a, b, Ok(EngineStep::Create { module })),
        rc != 0 || engine == 0,
        taking_engine(b, c, module, rc, engine, message, r),
    ensures
        c == a,
        r is Err,
{
}

/// Once the module has been handed over nothing can be added, every further request gives the
/// same engine, and no mapping is applied twice.
pub proof fn handover_is_final(
    a: Jit,
    b: Jit,
    c: Jit,
    module: u64,
    engine: u64,
    message: Option<String>,
    r: Result<Vec<(u64, u64)>, JitError>,
    again: Result<EngineStep, JitError>,
)
    requires
        engine != 0,
        taking_engine(a, b, module, 0, engine, message, r),
        handing_over(b, c, again),
    ensures
        open_module(b) == Err::<u64, JitError>(JitError::AlreadyFinalized),
        again == Ok::<EngineStep, JitError>(EngineStep::Ready { engine }),
        c == b,
        b.pending_mappings@ == Seq::<(u64, u64)>::empty(),
        r matches Ok(mappings) && mappings@ == a.pending_mappings@,
        b.engine == Some(engine) && b.module is None,
        b.arg_counts == a.arg_counts && b.diag_errors == a.diag_errors,
{
}

/// Refuses a string that no C string can hold.
pub fn c_string(s: &str) -> (r: Result<(), JitError>)
    ensures
        if holds_nul(s@) {
            r matches Err(JitError::Nul(t)) && t@ == s@
        } else {
            r is Ok
        },
{
    if has_nul(s) {
        Err(JitError::Nul(s.to_owned()))
    } else {
        Ok(())
    }
}

/// Takes note of a diagnostic. Only errors are kept.
pub fn on_diagnostic(errors: &mut Vec<String>, severity: Severity, message: Option<String>)
    ensures
        final(errors)@ == match message {
            Some(m) if severity == Severity::Error => old(errors)@.push(m),
            _ => old(errors)@,
        },
{
    if severity != Severity::Error {
        return;
    }
    if let Some(m) = message {
        errors.push(m);
    }
}

impl Jit {
    /// The module is with the host or with the engine, never with both.
    pub open spec fn wf(&self) -> bool {
        &&& self.module is None || self.engine is None
        &&& self.arg_counts.wf()
    }

    /// A loader for the fresh module `module` with this name. The host asserts that LLVM made it.
    pub fn new(module_name: &str, module: u64) -> (r: Result<Jit, JitError>)
        requires
            module != 0,
        ensures
            if holds_nul(module_name@) {
                r matches Err(JitError::Nul(t)) && t@ == module_name@
            } else {
                r matches Ok(j) && j.wf() && j.module == Some(module) && j.engine is None
                    && j.pending_mappings@ == Seq::<(u64, u64)>::empty() && j.arg_counts@
                    == Map::<Seq<char>, usize>::empty() && j.diag_errors@ == Seq::<String>::empty()
            },
    {
        match c_string(module_name) {
            Ok(_) => Ok(
                Jit {
                    module: Some(module),
                    engine: None,
                    pending_mappings: Vec::new(),
                    arg_counts: NameMap::new(),
                    diag_errors: Vec::new(),
                },
            ),
            Err(e) => Err(e),
        }
    }

    /// Hands out the errors reported since the last time.
    pub fn take_errors(&mut self) -> (v: Vec<String>)
        ensures
            v == old(self).diag_errors,
            final(self).diag_errors@ == Seq::<String>::empty(),
            *final(self) == (Jit { diag_errors: final(self).diag_errors, ..*old(self) }),
    {
        let mut v: Vec<String> = Vec::new();
        std::mem::swap(&mut v, &mut self.diag_errors);
        v
    }

    /// The module, while it can still be added to.
    pub fn require_module(&self) -> (r: Result<u64, JitError>)
        ensures
            r == open_module(*self),
    {
        match self.module {
            Some(m) => Ok(m),
            None => Err(JitError::AlreadyFinalized),
        }
    }

    /// The module to append text to that declares these externs. The number of arguments that one
    /// declares has to be the one that it was defined with, if it was.
    pub fn add_asm(&self, declared: &Vec<Extern>) -> (r: Result<u64, JitError>)
        requires
            self.wf(),
        ensures
            adding(*self, declared@, r),
    {
        let module: u64 = match self.require_module() {
            Ok(m) => m,
            Err(e) => {
                return Err(e);
            },
        };
        let mut i: usize = 0;
        while i < declared.len()
            invariant
                self.wf(),
                i <= declared@.len(),
                self.module == Some(module),
                first_disagreement(declared@, self.arg_counts@) == disagreement_from(
                    declared@,
                    self.arg_counts@,
                    i as int,
                ),
            decreases declared@.len() - i,
        {
            let e: &Extern = &declared[i];
            if let Some(defined) = self.arg_counts.get(e.name.as_str()) {
                if *defined != e.arg_count {
                    return Err(
                        JitError::ArgCount {
                            name: e.name.clone(),
                            declared: e.arg_count,
                            defined: *defined,
                        },
                    );
                }
            }
            i += 1;
        }
        Ok(module)
    }

    /// The module to declare `name` in.
    pub fn declare_fn(&self, name: &str) -> (r: Result<u64, JitError>)
        ensures
            match self.module {
                None => r == Err::<u64, JitError>(JitError::AlreadyFinalized),
                Some(m) => if holds_nul(name@) {
                    r matches Err(JitError::Nul(t)) && t@ == name@
                } else {
                    r == Ok::<u64, JitError>(m)
                },
            },
    {
        let module: u64 = match self.require_module() {
            Ok(m) => m,
            Err(e) => {
                return Err(e);
            },
        };
        match c_string(name) {
            Ok(_) => Ok(module),
            Err(e) => Err(e),
        }
    }

    /// Queues the mapping of the function `name`, which was declared as `value` with `arg_count`
    /// arguments, to an address of the host, while the module can still be added to.
    pub fn define_extern_fn(&mut self, name: &str, arg_count: usize, value: u64, addr: u64) -> (r:
        Result<(), JitError>)
        requires
            old(self).wf(),
        ensures
            final(self).wf(),
            defining(*old(self), *final(self), name@, arg_count, value, addr, r),
    {
        match self.require_module() {
            Ok(_) => {
                self.pending_mappings.push((value, addr));
                self.arg_counts.insert(name.to_owned(), arg_count);
                Ok(())
            },
            Err(e) => Err(e),
        }
    }

    /// Asks for the engine. The first time the module leaves the loader.
    pub fn finalize(&mut self) -> (r: Result<EngineStep, JitError>)
        requires
            old(self).wf(),
        ensures
            final(self).wf(),
            handing_over(*old(self), *final(self), r),
    {
        if let Some(engine) = self.engine {
            return Ok(EngineStep::Ready { engine });
        }
        match self.module {
            Some(module) => {
                self.module = None;
                Ok(EngineStep::Create { module })
            },
            None => Err(JitError::AlreadyFinalized),
        }
    }

    /// Takes note of the engine for `module`. Where there is none (zero, or a return code), the
    /// module comes back. Otherwise gives the mappings to apply, before any code runs.
    pub fn created(&mut self, module: u64, rc: i32, engine: u64, message: Option<String>) -> (r:
        Result<Vec<(u64, u64)>, JitError>)
        requires
            old(self).wf(),
            old(self).engine is None,
        ensures
            final(self).wf(),
            taking_engine(*old(self), *final(self), module, rc, engine, message, r),
    {
        if rc != 0 || engine == 0 {
            self.module = Some(module);
            return match message {
                Some(m) => Err(JitError::Llvm(m)),
                None => Err(
                    JitError::Llvm(
                        "LLVMCreateMCJITCompilerForModule failed with no message".to_owned(),
                    ),
                ),
            };
        }
        let mut mappings: Vec<(u64, u64)> = Vec::new();
        std::mem::swap(&mut mappings, &mut self.pending_mappings);
        self.module = None;
        self.engine = Some(engine);
        Ok(mappings)
    }

    /// Passes on the errors that LLVM reported, if any.
    fn pass_errors(&mut self) -> (r: Result<(), JitError>)
        ensures
            final(self).diag_errors@ == Seq::<String>::empty(),
            *final(self) == (Jit { diag_errors: final(self).diag_errors, ..*old(self) }),
            if old(self).diag_errors@.len() > 0 {
                r matches Err(JitError::Llvm(m)) && m@ == joined(old(self).diag_errors@, "\n"@)
            } else {
                r is Ok
            },
    {
        let errors: Vec<String> = self.take_errors();
        if errors.len() > 0 {
            Err(JitError::Llvm(join(&errors, "\n")))
        } else {
            Ok(())
        }
    }

    /// Whether `name` can be asked for, now that the engine is ready: compiling may have reported
    /// errors.
    pub fn begin_lookup(&mut self, name: &str) -> (r: Result<(), JitError>)
        ensures
            final(self).diag_errors@ == Seq::<String>::empty(),
            *final(self) == (Jit { diag_errors: final(self).diag_errors, ..*old(self) }),
            if old(self).diag_errors@.len() > 0 {
                r matches Err(JitError::Llvm(m)) && m@ == joined(old(self).diag_errors@, "\n"@)
            } else if holds_nul(name@) {
                r matches Err(JitError::Nul(t)) && t@ == name@
            } else {
                r is Ok
            },
    {
        match self.pass_errors() {
            Ok(_) => c_string(name),
            Err(e) => Err(e),
        }
    }

    /// What a lookup of `name` comes to, with the address that the engine gave: zero means that
    /// there is none. Errors reported meanwhile come first.
    pub fn end_lookup(&mut self, name: &str, addr: u64) -> (r: Result<u64, JitError>)
        ensures
            final(self).diag_errors@ == Seq::<String>::empty(),
            *final(self) == (Jit { diag_errors: final(self).diag_errors, ..*old(self) }),
            if old(self).diag_errors@.len() > 0 {
                r matches Err(JitError::Llvm(m)) && m@ == joined(old(self).diag_errors@, "\n"@)
            } else if addr == 0 {
                r matches Err(JitError::NotFound(t)) && t@ == name@
            } else {
                r == Ok::<u64, JitError>(addr)
            },
    {
        match self.pass_errors() {
            Ok(_) => if addr == 0 {
                Err(JitError::NotFound(name.to_owned()))
            } else {
                Ok(addr)
            },
            Err(e) => Err(e),
        }
    }

    /// Gives up what the loader owns: the engine, or else the module.
    pub fn release(&mut self) -> (l: Leftover)
        requires
            old(self).wf(),
        ensures
            l == match (old(self).engine, old(self).module) {
                (Some(engine), _) => Leftover::Engine { engine },
                (None, Some(module)) => Leftover::Module { module },
                (None, None) => Leftover::Nothing,
            },
            *final(self) == (Jit { engine: None, module: None, ..*old(self) }),
    {
        if let Some(engine) = self.engine {
            self.engine = None;
            return Leftover::Engine { engine };
        }
        if let Some(module) = self.module {
            self.module = None;
            return Leftover::Module { module };
        }
        Leftover::Nothing
    }
}

} // verus!
