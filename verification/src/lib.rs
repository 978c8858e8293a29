//! `wfasm`: the machine-code side of a Forth assembler and JIT.
//!
//! * [`rasm`]: x86-64 instructions to bytes, and what the bytes mean.
//! * [`oracle`]: the LLVM-MC encoder; object files to modules.
//! * [`backend`]: modules, relocations, and the [`Encoder`] and [`Loader`] traits.
//! * [`load`], [`native`], [`native_macos`]: placing and relocating modules, on x86-64 and on
//!   AArch64.
//! * [`jit`]: the life of an MCJIT module.
//! * [`arena`]: near memory for words that are compiled at run time.
//! * [`win32`]: binding externs to functions of Windows libraries and of the host.
//! * [`seh`]: the crash dumper.
//! * [`kernel`]: what the Forth kernel finds when it starts.
//!
//! Everything here works on plain values. Mapping memory, calling into the system and running
//! code is the host's part.

pub mod align;
pub mod arena;
pub mod backend;
pub mod bytes;
pub mod jit;
pub mod kernel;
pub mod load;
pub mod names;
pub mod native;
pub mod native_macos;
pub mod oracle;
pub mod rasm;
pub mod seh;
pub mod text;
pub mod win32;

pub use arena::CodeArena;
pub use backend::{EncodedModule, Encoder, Loader, Reloc, RelocKind};
pub use jit::{Jit, JitError};
pub use native::NativeJit;
pub use native_macos::MacJit;
pub use oracle::LlvmMcEncoder;
