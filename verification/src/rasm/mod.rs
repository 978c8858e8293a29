//! The native x86-64 encoder: one parsed instruction in, machine code out.
//!
//! [`operand`] holds what an instruction names (registers, memory operands, immediates,
//! symbols), [`encode`] turns one instruction into bytes and fixups, and [`decode`] reads
//! such bytes back the way the processor does, which is how the encoder's output is shown
//! to mean what was written. [`forms`] tells which instructions can be encoded.

pub mod decode;
pub mod encode;
pub mod forms;
pub mod operand;

pub use encode::{encode, EncodeError, Encoded, Fixup, FixupKind};
pub use operand::{Mem, MemSize, Operand, Reg, RegClass};
