# can

`can` is a small stack-based language: arithmetic and bitwise operations,
`dump`, `if`/`else`/`end`, `while`/`do`/`end`, byte memory behind `mem`,
system calls, macros and `//` comments. This crate holds its parser, macro
expander, peephole optimiser, jump linker, x86-64 (NASM) code generator and
a step-wise emulator, each with a contract proved by Verus.

Layout:

- `src/text.rs` – line, word, trim and comment handling on characters.
- `src/parse.rs` – source text to operations (include lines, string literals).
- `src/operation.rs` – the operations and their values for contracts.
- `src/codegen.rs` – the assembly text of each operation.
- `src/optimize.rs` – folding of `push 1; +`, `push 1; -` and runs of `+`.
- `src/link.rs` – macro collection and expansion, jump linking.
- `src/machine.rs` – the semantics of one emulator step.
- `src/program.rs` – a program with its emulator state: linking, compiling,
  stepping and running.
- `src/laws.rs`, `src/equivalence.rs` – properties of the whole: among them,
  that folding (and so the optimisation level) does not change what a
  program does, control flow included.
- `app/main.rs` – the command line: reading files, writing `out.asm`, running
  `nasm` and `ld`, printing and performing system calls while emulating.
