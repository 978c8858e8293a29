# wfasm

The machine-code side of a Forth assembler and JIT, verified with Verus: encoding x86-64
instructions, reading object files from LLVM-MC, placing and relocating modules on x86-64 Windows
and on Apple Silicon, binding externs, and rendering crash dumps.

* `src/`: the library. Everything in it works on plain values and is proved against its contracts.
* `app/`: the host. It maps memory, calls LLVM and the system, and runs the code.
* `tests/`: the library's tests.

The calls into the `object` crate, and the one into `std::fmt`, stand behind functions whose
contracts are taken on trust: see `src/oracle.rs` and `src/text.rs`.
