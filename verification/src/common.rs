//! Shared encodings: the ELF64 headers of an output file, the ModR/M byte, little-endian
//! integers, and the eight general registers of the byte stream.
use vstd::prelude::*;
use crate::text::{to_chars, trim, trim_char, trim_range, copy_range, Strip};

verus! {

/// An ELF64 file header for an x86-64 executable; its entry point, program header count
/// and the file sizes are patched in when the file is written.
pub const ELF64_HEADER: [u8; 64] = [
    0x7f, 0x45, 0x4c, 0x46, 2, 1, 1, 0, 0, 0, 0, 0, 0, 0, 0, 0,
    2, 0, 0x3e, 0, 1, 0, 0, 0, 0, 0, 0, 0, 0, 0, 0, 0,
    0x40, 0, 0, 0, 0, 0, 0, 0, 0, 0, 0, 0, 0, 0, 0, 0,
    0, 0, 0, 0, 0x40, 0, 0x38, 0, 0, 0, 0x40, 0, 0, 0, 0, 0,
];

/// One loadable, readable, writable and executable program header.
pub const ELF64_PROGRAM_HEADER: [u8; 56] = [
    1, 0, 0, 0, 7, 0, 0, 0, 0, 0, 0, 0, 0, 0, 0, 0,
    0, 0, 0, 0, 0, 0, 0, 0, 0, 0, 0, 0, 0, 0, 0, 0,
    0, 0, 0, 0, 0, 0, 0, 0, 0, 0, 0, 0, 0, 0, 0, 0,
    0, 0x10, 0, 0, 0, 0, 0, 0,
];

/// x86-64 `syscall`.
pub const SYSCALL: [u8; 2] = [0x0F, 0x05];

/// x86-64 `mov r/m64, r64`: a store to memory.
pub const STORE: [u8; 2] = [0x48, 0x89];

/// x86-64 `mov r64, r/m64`: a load from memory.
pub const LOAD: [u8; 2] = [0x48, 0x8B];

/// `add r/m64, r64`.
pub const ADD: [u8; 2] = [0x48, 0x01];

/// `sub r/m64, r64`.
pub const SUB: [u8; 2] = [0x48, 0x29];

/// The ModR/M byte: `mode` in bits 7..6, `reg` in bits 5..3, `rm` in bits 2..0.
pub open spec fn spec_modrm(mode: u8, reg: u8, rm: u8) -> u8 {
    (mode << 6u8) | (reg << 3u8) | rm
}

pub fn modrm(mode: u8, reg: u8, rm: u8) -> (r: u8)
    ensures
        r == spec_modrm(mode, reg, rm),
{
    mode << 6 | reg << 3 | rm
}

/// A ModR/M byte gives back its three fields.
pub proof fn lemma_modrm_fields(mode: u8, reg: u8, rm: u8)
    requires
        mode < 4,
        reg < 8,
        rm < 8,
    ensures
        spec_modrm(mode, reg, rm) >> 6u8 == mode,
        (spec_modrm(mode, reg, rm) >> 3u8) & 7 == reg,
        spec_modrm(mode, reg, rm) & 7 == rm,
        spec_modrm(mode, reg, rm) == mode * 64 + reg * 8 + rm,
{
    assert((mode << 6u8) | (reg << 3u8) | rm == mode * 64 + reg * 8 + rm) by (bit_vector)
        requires
            mode < 4,
            reg < 8,
            rm < 8,
    ;
    assert(((mode << 6u8) | (reg << 3u8) | rm) >> 6u8 == mode) by (bit_vector)
        requires
            mode < 4,
            reg < 8,
            rm < 8,
    ;
    assert((((mode << 6u8) | (reg << 3u8) | rm) >> 3u8) & 7 == reg) by (bit_vector)
        requires
            mode < 4,
            reg < 8,
            rm < 8,
    ;
    assert(((mode << 6u8) | (reg << 3u8) | rm) & 7 == rm) by (bit_vector)
        requires
            mode < 4,
            reg < 8,
            rm < 8,
    ;
}

/// The little-endian bytes of `w` (`u32::to_le_bytes`).
pub open spec fn le_u32(w: u32) -> Seq<u8> {
    seq![(w & 0xff) as u8, ((w >> 8u32) & 0xff) as u8, ((w >> 16u32) & 0xff) as u8, ((w >> 24u32) & 0xff) as u8]
}

/// The little-endian two's complement bytes of `v` (`i32::to_le_bytes`).
pub open spec fn le_i32(v: i32) -> Seq<u8> {
    le_u32(v as u32)
}

/// The little-endian bytes of `w` (`u64::to_le_bytes`).
pub open spec fn le_u64(w: u64) -> Seq<u8> {
    le_u32((w & 0xffff_ffff) as u32) + le_u32((w >> 32u64) as u32)
}

/// The little-endian two's complement bytes of `v` (`i64::to_le_bytes`).
pub open spec fn le_i64(v: i64) -> Seq<u8> {
    le_u64(v as u64)
}

pub fn le_u32_bytes(w: u32) -> (r: Vec<u8>)
    ensures
        r@ == le_u32(w),
{
    vec![(w & 0xff) as u8, ((w >> 8) & 0xff) as u8, ((w >> 16) & 0xff) as u8, ((w >> 24) & 0xff) as u8]
}

pub fn le_i32_bytes(v: i32) -> (r: Vec<u8>)
    ensures
        r@ == le_i32(v),
{
    le_u32_bytes(v as u32)
}

pub fn le_u64_bytes(w: u64) -> (r: Vec<u8>)
    ensures
        r@ == le_u64(w),
{
    let mut r = le_u32_bytes((w & 0xffff_ffff) as u32);
    let mut hi = le_u32_bytes((w >> 32) as u32);
    r.append(&mut hi);
    r
}

pub fn le_i64_bytes(v: i64) -> (r: Vec<u8>)
    ensures
        r@ == le_i64(v),
{
    le_u64_bytes(v as u64)
}

/// The eight general registers that the byte stream names `r0` to `r7`.
#[derive(Clone, Copy, PartialEq, Eq, Structural, Debug)]
pub enum REGS {
    R0,
    R1,
    R2,
    R3,
    R4,
    R5,
    R6,
    R7,
}

/// The number of a register named `r0` to `r7`.
pub open spec fn spec_reg_number(name: Seq<char>) -> Option<u8> {
    if name.len() == 2 && name[0] == 'r' && '0' <= name[1] <= '7' {
        Some((name[1] as u32 - '0' as u32) as u8)
    } else {
        None
    }
}

impl REGS {
    /// The register's encoding.
    pub open spec fn spec_code(self) -> u8 {
        match self {
            REGS::R0 => 0,
            REGS::R1 => 1,
            REGS::R2 => 2,
            REGS::R3 => 3,
            REGS::R4 => 4,
            REGS::R5 => 5,
            REGS::R6 => 6,
            REGS::R7 => 7,
        }
    }

    pub fn code(&self) -> (r: u8)
        ensures
            r == self.spec_code(),
    {
        match self {
            REGS::R0 => 0,
            REGS::R1 => 1,
            REGS::R2 => 2,
            REGS::R3 => 3,
            REGS::R4 => 4,
            REGS::R5 => 5,
            REGS::R6 => 6,
            REGS::R7 => 7,
        }
    }

    /// The register `r<n>` for `n` in `0..8`.
    pub open spec fn spec_of_code(n: u8) -> REGS {
        if n == 0 {
            REGS::R0
        } else if n == 1 {
            REGS::R1
        } else if n == 2 {
            REGS::R2
        } else if n == 3 {
            REGS::R3
        } else if n == 4 {
            REGS::R4
        } else if n == 5 {
            REGS::R5
        } else if n == 6 {
            REGS::R6
        } else {
            REGS::R7
        }
    }

    /// The register named exactly `name` (`r0` to `r7`).
    pub open spec fn spec_from_str(name: Seq<char>) -> Option<REGS> {
        match spec_reg_number(name) {
            Some(n) => Some(REGS::spec_of_code(n)),
            None => None,
        }
    }

    /// The register named exactly `name` (`r0` to `r7`), if any.
    pub fn from_str(name: &str) -> (r: Option<REGS>)
        ensures
            r == REGS::spec_from_str(name@),
            r matches Some(g) ==> Some(g.spec_code()) == spec_reg_number(name@),
    {
        let v = to_chars(name);
        if v.len() == 2 && v[0] == 'r' && '0' <= v[1] && v[1] <= '7' {
            let n = ((v[1] as u32) - ('0' as u32)) as u8;
            let g = if n == 0 {
                REGS::R0
            } else if n == 1 {
                REGS::R1
            } else if n == 2 {
                REGS::R2
            } else if n == 3 {
                REGS::R3
            } else if n == 4 {
                REGS::R4
            } else if n == 5 {
                REGS::R5
            } else if n == 6 {
                REGS::R6
            } else {
                REGS::R7
            };
            Some(g)
        } else {
            None
        }
    }
}

/// The register that `name` names, surrounding whitespace and `|` ignored.
pub open spec fn spec_reg(name: Seq<char>) -> Option<u8> {
    spec_reg_number(trim_char(trim(name), '|'))
}

/// The number of the register that `name` names, surrounding whitespace and `|` ignored.
pub fn reg(name: &str) -> (r: u8)
    requires
        spec_reg(name@) is Some,
    ensures
        spec_reg(name@) == Some(r),
{
    let v = to_chars(name);
    assert(v@.subrange(0, v@.len() as int) == v@);
    let (i, j) = trim_range(&v, 0, v.len(), Strip::Whitespace);
    let (i, j) = trim_range(&v, i, j, Strip::Char('|'));
    let n = copy_range(&v, i, j);
    ((n[1] as u32) - ('0' as u32)) as u8
}

/// `s` with `b` written over it from index `at` on.
pub open spec fn splice(s: Seq<u8>, at: int, b: Seq<u8>) -> Seq<u8> {
    s.take(at) + b + s.skip(at + b.len())
}

/// Writes `b` over `out` from index `at` on.
pub fn write_at(out: &mut Vec<u8>, at: usize, b: &Vec<u8>)
    requires
        at + b.len() <= old(out).len(),
    ensures
        final(out)@ == splice(old(out)@, at as int, b@),
{
    let mut i: usize = 0;
    while i < b.len()
        invariant
            at + b.len() <= out.len(),
            i <= b.len(),
            out@.len() == old(out)@.len(),
            out@ == splice(old(out)@, at as int, b@.take(i as int)),
        decreases b.len() - i,
    {
        out[at + i] = b[i];
        assert(out@ =~= splice(old(out)@, at as int, b@.take(i + 1)));
        i += 1;
    }
}

} // verus!
