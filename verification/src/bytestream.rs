//! The output of the assembler: an x86-64 ELF64 executable, built one statement at a time.
use vstd::prelude::*;
use crate::common::{
    le_u64, le_u64_bytes, splice, write_at, modrm, REGS, ELF64_HEADER, ELF64_PROGRAM_HEADER, LOAD, STORE,
    SYSCALL,
};
use crate::encoder::{assemble_register, spec_parse_expression, x86_memory_code, x86_register_code};
use crate::target::{is_x86_64, x86_64, Isa};

verus! {

/// The headers that every output file starts with.
pub open spec fn elf_headers() -> Seq<u8> {
    ELF64_HEADER@ + ELF64_PROGRAM_HEADER@
}

/// Where the program is loaded in memory.
pub open spec fn load_base() -> u64 {
    0x400000
}

/// The file for the code in `stream`: the entry point (the code's first byte, right after the
/// headers), the program header count (1), the segment's address and its sizes in the file
/// and in memory (the whole file) written into the headers.
pub open spec fn spec_image(stream: Seq<u8>) -> Seq<u8> {
    let total = stream.len() as u64;
    let s = splice(stream, 24, le_u64((load_base() + 0x78) as u64));
    let s = splice(s, 56, seq![1u8, 0u8]);
    let s = splice(s, 80, le_u64(load_base()));
    let s = splice(s, 88, le_u64(load_base()));
    let s = splice(s, 96, le_u64(total));
    splice(s, 104, le_u64(total))
}

proof fn lemma_splice_inside(s: Seq<u8>, at: int, b: Seq<u8>)
    requires
        0 <= at,
        at + b.len() <= s.len(),
    ensures
        splice(s, at, b).len() == s.len(),
        splice(s, at, b).subrange(at, at + b.len()) == b,
        forall|k: int| 0 <= k < s.len() && !(at <= k < at + b.len()) ==> #[trigger] splice(s, at, b)[k] == s[k],
{
}

/// Writing the header fields keeps the code: the file is as long as the stream, holds the
/// same bytes after the headers and in the identification before the entry point, and
/// gives the stream's length as the segment's size in the file and in memory.
pub proof fn lemma_image_keeps_code(stream: Seq<u8>)
    requires
        stream.len() >= elf_headers().len(),
    ensures
        spec_image(stream).len() == stream.len(),
        spec_image(stream).skip(elf_headers().len() as int) == stream.skip(elf_headers().len() as int),
        spec_image(stream).take(24) == stream.take(24),
        spec_image(stream).subrange(96, 104) == le_u64(stream.len() as u64),
        spec_image(stream).subrange(104, 112) == le_u64(stream.len() as u64),
{
    let total = stream.len() as u64;
    let s1 = splice(stream, 24, le_u64((load_base() + 0x78) as u64));
    let s2 = splice(s1, 56, seq![1u8, 0u8]);
    let s3 = splice(s2, 80, le_u64(load_base()));
    let s4 = splice(s3, 88, le_u64(load_base()));
    let s5 = splice(s4, 96, le_u64(total));
    let s6 = splice(s5, 104, le_u64(total));
    lemma_splice_inside(stream, 24, le_u64((load_base() + 0x78) as u64));
    lemma_splice_inside(s1, 56, seq![1u8, 0u8]);
    lemma_splice_inside(s2, 80, le_u64(load_base()));
    lemma_splice_inside(s3, 88, le_u64(load_base()));
    lemma_splice_inside(s4, 96, le_u64(total));
    lemma_splice_inside(s5, 104, le_u64(total));
}

/// x86-64: the operation `op` between `register` and the memory at the address in `base`.
fn memory_operation(op: &[u8], register: u8, base: u8) -> (r: Vec<u8>)
    ensures
        r@ == x86_memory_code(op@, register, base, 0),
{
    let mode: u8 = if base != 5 {
        0b00
    } else {
        0b01
    };
    let mut output = vstd::slice::slice_to_vec(op);
    output.push(modrm(mode, register, base));
    if base == 4 {
        output.push(0x24);
    }
    if mode == 0b01 {
        output.push(0);
    }
    output
}

/// An executable being written: the ELF headers, then the code of the statements processed so
/// far, in order.
pub struct ByteStream {
    raw_stream: Vec<u8>,
    isa: Isa,
}

impl View for ByteStream {
    type V = Seq<u8>;

    closed spec fn view(&self) -> Seq<u8> {
        self.raw_stream@
    }
}

impl ByteStream {
    /// The instruction set of the code: x86-64.
    pub closed spec fn target(&self) -> Isa {
        self.isa
    }

    /// A stream holding the headers and no code.
    pub fn new() -> (s: Self)
        ensures
            s@ == elf_headers(),
            is_x86_64(&s.target()),
    {
        let mut raw = vstd::slice::slice_to_vec(&ELF64_HEADER);
        let mut program = vstd::slice::slice_to_vec(&ELF64_PROGRAM_HEADER);
        raw.append(&mut program);
        ByteStream { raw_stream: raw, isa: x86_64() }
    }

    /// Appends code that sets the register `name` (`r0` to `r7`) to the value of `value`.
    pub fn process_register(&mut self, name: &str, value: &str)
        requires
            REGS::spec_from_str(name@) is Some,
            spec_parse_expression(&old(self).target(), value@) is Some,
        ensures
            final(self).target() == old(self).target(),
            final(self)@ == old(self)@ + x86_register_code(
                REGS::spec_from_str(name@)->0.spec_code(),
                spec_parse_expression(&old(self).target(), value@)->0,
            ),
    {
        let dst = REGS::from_str(name).unwrap().code();
        let mut code = assemble_register(&self.isa, dst, value);
        self.raw_stream.append(&mut code);
    }

    /// Appends code that loads the system call number `value` into `r0` and makes the call.
    pub fn process_syscall(&mut self, value: &str)
        requires
            spec_parse_expression(&old(self).target(), value@) is Some,
        ensures
            final(self).target() == old(self).target(),
            final(self)@ == old(self)@ + x86_register_code(
                0,
                spec_parse_expression(&old(self).target(), value@)->0,
            ) + SYSCALL@,
    {
        proof {
            reveal_strlit("r0");
        }
        self.process_register("r0", value);
        let mut syscall = vstd::slice::slice_to_vec(&SYSCALL);
        self.raw_stream.append(&mut syscall);
    }

    /// Appends a store of the register `source` to the memory at the address in `memory`.
    pub fn process_store(&mut self, memory: &str, source: &str)
        requires
            REGS::spec_from_str(memory@) is Some,
            REGS::spec_from_str(source@) is Some,
        ensures
            final(self).target() == old(self).target(),
            final(self)@ == old(self)@ + x86_memory_code(
                STORE@,
                REGS::spec_from_str(source@)->0.spec_code(),
                REGS::spec_from_str(memory@)->0.spec_code(),
                0,
            ),
    {
        let source = REGS::from_str(source).unwrap().code();
        let memory = REGS::from_str(memory).unwrap().code();
        let mut code = memory_operation(&STORE, source, memory);
        self.raw_stream.append(&mut code);
    }

    /// Appends a load of the memory at the address in `memory` into the register `destination`.
    pub fn process_load(&mut self, destination: &str, memory: &str)
        requires
            REGS::spec_from_str(destination@) is Some,
            REGS::spec_from_str(memory@) is Some,
        ensures
            final(self).target() == old(self).target(),
            final(self)@ == old(self)@ + x86_memory_code(
                LOAD@,
                REGS::spec_from_str(destination@)->0.spec_code(),
                REGS::spec_from_str(memory@)->0.spec_code(),
                0,
            ),
    {
        let destination = REGS::from_str(destination).unwrap().code();
        let memory = REGS::from_str(memory).unwrap().code();
        let mut code = memory_operation(&LOAD, destination, memory);
        self.raw_stream.append(&mut code);
    }

    /// The executable file: the stream with the entry point, program header count, load
    /// address and sizes written into its headers.
    pub fn image(&self) -> (r: Vec<u8>)
        requires
            self@.len() >= elf_headers().len(),
        ensures
            r@ == spec_image(self@),
    {
        let mut out = self.raw_stream.clone();
        let total = out.len() as u64;
        let base: u64 = 0x400000;
        write_at(&mut out, 24, &le_u64_bytes(base + 0x78));
        write_at(&mut out, 56, &vec![1u8, 0u8]);
        write_at(&mut out, 80, &le_u64_bytes(base));
        write_at(&mut out, 88, &le_u64_bytes(base));
        write_at(&mut out, 96, &le_u64_bytes(total));
        write_at(&mut out, 104, &le_u64_bytes(total));
        out
    }
}

} // verus!
