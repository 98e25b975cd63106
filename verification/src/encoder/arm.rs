//! AArch64 encoders. Every instruction is one little-endian 32-bit word.
use vstd::prelude::*;
use crate::common::le_u32;
use crate::encoder::{
    abs, condition_operator, condition_ok, condition_sides, memory_base,
    memory_displacement, memory_ok, memory_operand, parse_expression, repeat,
    spec_parse_expression, spec_register_operand, split_condition, unsigned_abs, Linear,
};
use crate::target::Isa;
use crate::text::{parse_u32, parse_u32_range, to_chars, trim, trim_range, Strip};

verus! {

/// `out` followed by the little-endian bytes of `w`.
fn word(out: &mut Vec<u8>, w: u32)
    ensures
        final(out)@ == old(out)@ + le_u32(w),
{
    out.append(&mut crate::common::le_u32_bytes(w));
}

/// What loads `xd` with `c + coef * xd`: `movn`/`movz` (and `movk` for the high half) where
/// `coef` is 0; else `mov x9, |coef|; mul xd, x9, xd` (unless `coef` is 1) and `add`/`sub
/// xd, xd, |c|` (unless `c` is 0).
pub open spec fn arm_register_head(d: u32, c: i32, coef: i32) -> Seq<u8> {
    if coef == 0 {
        if c < 0 {
            le_u32(0x9280_0000u32 | (((!(c as u32)) & 0xFFFFu32) << 5u32) | d)
        } else {
            let v = c as u32;
            le_u32(0xD280_0000u32 | ((v & 0xFFFFu32) << 5u32) | d) + (if v >> 16u32 != 0 {
                le_u32(0xF2A0_0000u32 | ((v >> 16u32) << 5u32) | d)
            } else {
                seq![]
            })
        }
    } else {
        (if coef != 1 {
            le_u32(0xD280_0000u32 | (((abs(coef) as u32) & 0xFFFFu32) << 5u32) | 9u32) + le_u32(
                0x9B00_7C00u32 | (9u32 << 16u32) | (d << 5u32) | d,
            )
        } else {
            seq![]
        }) + (if c != 0 {
            le_u32(
                (if c > 0 {
                    0x9100_0000u32
                } else {
                    0xD100_0000u32
                }) | (((abs(c) as u32) & 0xFFFu32) << 10u32) | (d << 5u32) | d,
            )
        } else {
            seq![]
        })
    }
}

/// `coef` times `add xd, xd, xr` (or `sub` for a negative `coef`); nothing for `xd` itself.
pub open spec fn arm_register_term(d: u32, r: int, coef: i32) -> Seq<u8> {
    if r == d || coef == 0 {
        seq![]
    } else {
        repeat(
            le_u32(
                (if coef > 0 {
                    0x8B00_0000u32
                } else {
                    0xCB00_0000u32
                }) | ((r as u32) << 16u32) | (d << 5u32) | d,
            ),
            abs(coef),
        )
    }
}

/// The terms of registers `0..n`, in order.
pub open spec fn arm_register_terms(d: u32, regs: Seq<i32>, n: nat) -> Seq<u8>
    decreases n,
{
    if n == 0 {
        seq![]
    } else {
        arm_register_terms(d, regs, (n - 1) as nat) + arm_register_term(d, n - 1, regs[n - 1])
    }
}

/// AArch64 code that sets register `d` to the linear form `v` of registers (`d` itself taken
/// at its old value).
pub open spec fn arm_register_code(d: u8, v: Linear) -> Seq<u8> {
    arm_register_head(d as u32, v.0, v.1[d as int]) + arm_register_terms(d as u32, v.1, 32)
}

/// `out` followed by `n` copies of the word `w`.
fn push_words(out: &mut Vec<u8>, w: u32, n: u32)
    ensures
        final(out)@ == old(out)@ + repeat(le_u32(w), n as nat),
{
    let mut k: u32 = 0;
    while k < n
        invariant
            k <= n,
            out@ == old(out)@ + repeat(le_u32(w), k as nat),
        decreases n - k,
    {
        word(out, w);
        k += 1;
    }
}

/// AArch64 code that sets register `destination` (not the stack pointer, 31) to the value of
/// `expression`, in which the destination stands for its old value.
pub fn assemble_register(isa: &Isa, destination: u8, expression: &str) -> (r: Vec<u8>)
    requires
        destination < 31,
        spec_parse_expression(isa, expression@) is Some,
    ensures
        r@ == arm_register_code(destination, spec_parse_expression(isa, expression@)->0),
{
    let (constant, registers) = parse_expression(isa, expression);
    let mut output: Vec<u8> = Vec::new();
    let d = destination as u32;
    let coefficient = registers[destination as usize];
    if coefficient == 0 {
        if constant < 0 {
            let inverted = !(constant as u32);
            word(&mut output, 0x9280_0000 | ((inverted & 0xFFFF) << 5) | d);
        } else {
            let value = constant as u32;
            word(&mut output, 0xD280_0000 | ((value & 0xFFFF) << 5) | d);
            if value >> 16 != 0 {
                word(&mut output, 0xF2A0_0000 | ((value >> 16) << 5) | d);
            }
        }
    } else {
        if coefficient != 1 {
            word(&mut output, 0xD280_0000 | ((unsigned_abs(coefficient) & 0xFFFF) << 5) | 9);
            word(&mut output, 0x9B00_7C00 | (9 << 16) | (d << 5) | d);
        }
        if constant != 0 {
            let base: u32 = if constant > 0 {
                0x9100_0000
            } else {
                0xD100_0000
            };
            word(&mut output, base | ((unsigned_abs(constant) & 0xFFF) << 10) | (d << 5) | d);
        }
    }
    let ghost head = output@;
    let mut register: usize = 0;
    while register < 32
        invariant
            0 <= register <= 32,
            d == destination as u32,
            destination < 31,
            output@ == head + arm_register_terms(d, registers@, register as nat),
        decreases 32 - register,
    {
        let c = registers[register];
        if register != destination as usize && c != 0 {
            let base: u32 = if c > 0 {
                0x8B00_0000
            } else {
                0xCB00_0000
            };
            let m = register as u32;
            push_words(&mut output, base | (m << 16) | (d << 5) | d, unsigned_abs(c));
        }
        register += 1;
        assert(arm_register_terms(d, registers@, register as nat) == arm_register_terms(
            d,
            registers@,
            (register - 1) as nat,
        ) + arm_register_term(d, register - 1, registers@[register - 1]));
    }
    output
}

/// The little-endian word of four bytes (`u32::from_le_bytes`).
pub open spec fn from_le(b: Seq<u8>) -> u32 {
    (b[0] as u32) | ((b[1] as u32) << 8u32) | ((b[2] as u32) << 16u32) | ((b[3] as u32) << 24u32)
}

/// Whether a memory operand can be encoded: its displacement is a non-negative multiple of 8.
pub open spec fn arm_memory_ok(isa: &Isa, m: Seq<char>) -> bool {
    memory_ok(isa, m) && memory_displacement(m) >= 0 && memory_displacement(m) % 8 == 0
}

/// The load or store word `operation` with the scaled displacement, base and data register.
pub open spec fn arm_memory_word(operation: u32, register: u8, base: u8, displacement: i32) -> u32 {
    operation | (((displacement as u32) / 8) << 10u32) | ((base as u32) << 5u32) | (register as u32)
}

/// AArch64: the load or store `operation_bytes` (four bytes) between `register` and the memory
/// operand `memory`, whose displacement is a non-negative multiple of 8.
pub fn assemble_memory_operation(isa: &Isa, operation_bytes: &[u8], register: u8, memory: &str) -> (r:
    Vec<u8>)
    requires
        operation_bytes@.len() == 4,
        arm_memory_ok(isa, memory@),
    ensures
        r@ == le_u32(
            arm_memory_word(
                from_le(operation_bytes@),
                register,
                isa.spec_reg(memory_base(memory@))->0,
                memory_displacement(memory@),
            ),
        ),
{
    let base_word = (operation_bytes[0] as u32) | ((operation_bytes[1] as u32) << 8) | ((
    operation_bytes[2] as u32) << 16) | ((operation_bytes[3] as u32) << 24);
    let (base, displacement) = memory_operand(isa, memory);
    let mut output: Vec<u8> = Vec::new();
    word(
        &mut output,
        base_word | (((displacement as u32) / 8) << 10) | ((base as u32) << 5) | register as u32,
    );
    output
}

/// AArch64: `adr xd, target`, whose offset is filled in later.
pub fn assemble_address(_isa: &Isa, register: u8) -> (r: Vec<u8>)
    ensures
        r@ == le_u32(0x1000_0000u32 | (register as u32)),
{
    let mut output: Vec<u8> = Vec::new();
    word(&mut output, 0x1000_0000 | register as u32);
    output
}

/// The condition field of `b.cond` for each operator.
pub open spec fn arm_condition_code(i: int) -> u32 {
    if i == 0 {
        0
    } else if i == 1 {
        1
    } else if i == 2 {
        13
    } else if i == 3 {
        10
    } else if i == 4 {
        11
    } else {
        12
    }
}

/// AArch64: `cmp xn, xm` or `cmp xn, #imm12`, and `b.cond` taken when the condition holds; its
/// offset is filled in later.
pub open spec fn arm_compare_code(isa: &Isa, condition: Seq<char>) -> (Seq<u8>, Seq<u8>) {
    let i = condition_operator(condition)->0;
    let (l, r) = condition_sides(condition, i);
    let n = spec_register_operand(isa, l)->0 as u32;
    (
        match spec_register_operand(isa, r) {
            Some(m) => le_u32(0xEB00_001Fu32 | ((m as u32) << 16u32) | (n << 5u32)),
            None => le_u32(
                0xF100_001Fu32 | ((parse_u32(trim(r))->0 & 0xFFFu32) << 10u32) | (n << 5u32),
            ),
        },
        le_u32(0x5400_0000u32 | arm_condition_code(i)),
    )
}

/// AArch64: compare the two sides of `condition` (`|reg| op |reg|` or `|reg| op number`), and
/// the conditional branch taken when it holds.
pub fn assemble_compare(isa: &Isa, condition: &str) -> (r: (Vec<u8>, Vec<u8>))
    requires
        condition_ok(isa, condition@, false),
    ensures
        (r.0@, r.1@) == arm_compare_code(isa, condition@),
{
    let c = to_chars(condition);
    let (i, left, right, lo, hi) = split_condition(isa, &c, false);
    let n = left as u32;
    let mut compare: Vec<u8> = Vec::new();
    match right {
        Some(m) => word(&mut compare, 0xEB00_001F | ((m as u32) << 16) | (n << 5)),
        None => {
            let (a, b) = trim_range(&c, lo, hi, Strip::Whitespace);
            let immediate = parse_u32_range(&c, a, b).unwrap();
            word(&mut compare, 0xF100_001F | ((immediate & 0xFFF) << 10) | (n << 5));
        },
    }
    let cond: u32 = if i == 0 {
        0
    } else if i == 1 {
        1
    } else if i == 2 {
        13
    } else if i == 3 {
        10
    } else if i == 4 {
        11
    } else {
        12
    };
    let mut branch: Vec<u8> = Vec::new();
    word(&mut branch, 0x5400_0000 | cond);
    (compare, branch)
}

} // verus!
