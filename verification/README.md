# lib

A small assembler that writes Linux ELF executables, verified with Verus.

- `src/text.rs`: character-level helpers (trimming, words, decimal numbers).
- `src/common.rs`: ELF headers, ModR/M bytes, little-endian encodings, the `r0`..`r7` registers.
- `src/target.rs`: the x86-64 and AArch64 targets, register names, branch patching.
- `src/encoder.rs`, `src/encoder/arm.rs`: expressions over registers and their machine code.
- `src/preprocess.rs`: comments, character literals, `#def` macros and constants.
- `src/bytestream.rs`, `src/program.rs`: building the executable statement by statement.
- `src/machine.rs`, `src/arm_machine.rs`: what the emitted register-load code does when run.
- `app/main.rs`: assembles the built-in program and writes `a.out`.
