//! What the AArch64 code of a register load does: the meaning of the few instructions that
//! the encoder emits for it, on the 31 general registers and the stack pointer.
use vstd::prelude::*;
use vstd::arithmetic::div_mod::{lemma_add_mod_noop, lemma_add_mod_noop_right, lemma_small_mod};
use crate::common::le_u32;
use crate::encoder::arm::{arm_memory_word, arm_compare_code, arm_condition_code, arm_register_code, arm_register_head, arm_register_term, arm_register_terms, from_le};
use crate::encoder::{
    condition_ok, condition_operator, condition_sides, lemma_operator_is_first, operand_name,
    operator_text, spec_register_operand,
    abs, dot, eval_expression, is_register_number, lemma_parse_evaluates,
    lemma_parse_only_registers, repeat, spec_parse_expression, value_of, Linear,
};
use crate::target::{find_reg, is_aarch64, Isa};
use crate::text::{parse_u32, trim};
use crate::machine::{dot_except, wrap};

verus! {

/// Register `i` as a source operand that names the zero register at 31.
pub open spec fn read_zr(regs: Seq<int>, i: int) -> int {
    if i == 31 {
        0
    } else {
        regs[i]
    }
}

/// Writing `v` to register `i`, where 31 is the zero register (the write is lost).
pub open spec fn write_zr(regs: Seq<int>, i: int, v: int) -> Seq<int> {
    if i == 31 {
        regs
    } else {
        regs.update(i, v)
    }
}

/// The registers after the instruction word `w`, where 31 is the stack pointer for the
/// immediate forms of `add`/`sub` and the zero register elsewhere: `movn`, `movz` and
/// `movk` (of the second half-word) with a 16-bit immediate, `mul`, `add`/`sub` with a
/// 12-bit immediate, and `add`/`sub` of registers; `None` for anything else.
pub open spec fn arm_exec(w: u32, regs: Seq<int>) -> Option<Seq<int>> {
    let rd = (w & 31) as int;
    let rn = ((w >> 5u32) & 31) as int;
    let rm = ((w >> 16u32) & 31) as int;
    let imm16 = ((w >> 5u32) & 0xFFFF) as int;
    let imm12 = ((w >> 10u32) & 0xFFF) as int;
    if w & 0xFFE0_0000 == 0x9280_0000 {
        Some(write_zr(regs, rd, 0xFFFF_FFFF_FFFF_FFFF - imm16))
    } else if w & 0xFFE0_0000 == 0xD280_0000 {
        Some(write_zr(regs, rd, imm16))
    } else if w & 0xFFE0_0000 == 0xF2A0_0000 {
        let old = read_zr(regs, rd);
        Some(write_zr(regs, rd, old - (old / 0x10000 % 0x10000) * 0x10000 + imm16 * 0x10000))
    } else if w & 0xFFE0_FC00 == 0x9B00_7C00 {
        Some(write_zr(regs, rd, wrap(read_zr(regs, rn) * read_zr(regs, rm))))
    } else if w & 0xFFC0_0000 == 0x9100_0000 {
        Some(regs.update(rd, wrap(regs[rn] + imm12)))
    } else if w & 0xFFC0_0000 == 0xD100_0000 {
        Some(regs.update(rd, wrap(regs[rn] - imm12)))
    } else if w & 0xFFE0_FC00 == 0x8B00_0000 {
        Some(write_zr(regs, rd, wrap(read_zr(regs, rn) + read_zr(regs, rm))))
    } else if w & 0xFFE0_FC00 == 0xCB00_0000 {
        Some(write_zr(regs, rd, wrap(read_zr(regs, rn) - read_zr(regs, rm))))
    } else {
        None
    }
}

/// The registers after running the words of `code`, each four little-endian bytes; `None`
/// where a word is outside [`arm_exec`] or bytes are left over.
#[verifier::opaque]
pub open spec fn arm_run(code: Seq<u8>, regs: Seq<int>) -> Option<Seq<int>>
    decreases code.len(),
{
    if code.len() == 0 {
        Some(regs)
    } else if code.len() < 4 {
        None
    } else {
        match arm_exec(from_le(code.take(4)), regs) {
            None => None,
            Some(r) => arm_run(code.skip(4), r),
        }
    }
}

proof fn lemma_from_le(w: u32)
    ensures
        from_le(le_u32(w)) == w,
{
    let (b0, b1, b2, b3) = ((w & 0xff) as u8, ((w >> 8u32) & 0xff) as u8, ((w >> 16u32) & 0xff) as u8, ((w >> 24u32) & 0xff) as u8);
    assert((b0 as u32) | ((b1 as u32) << 8u32) | ((b2 as u32) << 16u32) | ((b3 as u32) << 24u32) == w) by (bit_vector)
        requires
            b0 == (w & 0xff) as u8,
            b1 == ((w >> 8u32) & 0xff) as u8,
            b2 == ((w >> 16u32) & 0xff) as u8,
            b3 == ((w >> 24u32) & 0xff) as u8,
    ;
}

proof fn lemma_arm_cons(w: u32, rest: Seq<u8>, regs: Seq<int>)
    requires
        arm_exec(w, regs) is Some,
    ensures
        arm_run(le_u32(w) + rest, regs) == arm_run(rest, arm_exec(w, regs)->0),
{
    reveal_with_fuel(arm_run, 1);
    lemma_from_le(w);
    let code = le_u32(w) + rest;
    assert(code.take(4) =~= le_u32(w));
    assert(code.skip(4) =~= rest);
}

proof fn lemma_exec_movn(d: u32, c: i32, regs: Seq<int>)
    requires
        d < 31,
        -65536 <= c < 0,
        regs.len() == 32,
    ensures
        arm_exec(0x9280_0000u32 | (((!(c as u32)) & 0xFFFFu32) << 5u32) | d, regs) == Some(
            regs.update(d as int, wrap(c as int)),
        ),
{
    let u = c as u32;
    let m = (!u) & 0xFFFFu32;
    assert(u == (c + 0x1_0000_0000int) as u32) by (bit_vector)
        requires
            u == c as u32,
            c < 0,
    ;
    assert(u >= 0xFFFF_0000);
    assert(m == 0xFFFF_FFFFu32 - u) by (bit_vector)
        requires
            m == (!u) & 0xFFFFu32,
            u >= 0xFFFF_0000,
    ;
    let w = 0x9280_0000u32 | (m << 5u32) | d;
    assert(w & 0xFFE0_0000 == 0x9280_0000 && w & 31 == d && (w >> 5u32) & 0xFFFF == m) by (bit_vector)
        requires
            w == 0x9280_0000u32 | (m << 5u32) | d,
            d < 31,
            m <= 0xFFFF,
    ;
    assert(0xFFFF_FFFF_FFFF_FFFF - (m as int) == c + 0x1_0000_0000_0000_0000int);
    assert(wrap(c as int) == c + 0x1_0000_0000_0000_0000int) by {
        lemma_small_mod((c + 0x1_0000_0000_0000_0000int) as nat, 0x1_0000_0000_0000_0000nat);
        lemma_add_mod_noop(c as int, 0x1_0000_0000_0000_0000int, 0x1_0000_0000_0000_0000int);
    }
}

proof fn lemma_exec_movz(d: u32, imm: u32, regs: Seq<int>)
    requires
        d < 31,
        imm <= 0xFFFF,
        regs.len() == 32,
    ensures
        arm_exec(0xD280_0000u32 | (imm << 5u32) | d, regs) == Some(regs.update(d as int, imm as int)),
{
    let w = 0xD280_0000u32 | (imm << 5u32) | d;
    assert(w & 0xFFE0_0000 != 0x9280_0000 && w & 0xFFE0_0000 == 0xD280_0000 && w & 31 == d && (w
        >> 5u32) & 0xFFFF == imm) by (bit_vector)
        requires
            w == 0xD280_0000u32 | (imm << 5u32) | d,
            d < 31,
            imm <= 0xFFFF,
    ;
}

proof fn lemma_exec_movk(d: u32, hi: u32, regs: Seq<int>)
    requires
        d < 31,
        hi <= 0xFFFF,
        regs.len() == 32,
        0 <= regs[d as int] < 0x10000,
    ensures
        arm_exec(0xF2A0_0000u32 | (hi << 5u32) | d, regs) == Some(
            regs.update(d as int, regs[d as int] + hi * 0x10000),
        ),
{
    let w = 0xF2A0_0000u32 | (hi << 5u32) | d;
    assert(w & 0xFFE0_0000 != 0x9280_0000 && w & 0xFFE0_0000 != 0xD280_0000 && w & 0xFFE0_0000
        == 0xF2A0_0000 && w & 31 == d && (w >> 5u32) & 0xFFFF == hi) by (bit_vector)
        requires
            w == 0xF2A0_0000u32 | (hi << 5u32) | d,
            d < 31,
            hi <= 0xFFFF,
    ;
    let old = regs[d as int];
    assert(old / 0x10000 == 0);
}

proof fn lemma_exec_mul(d: u32, regs: Seq<int>)
    requires
        d < 31,
        d != 9,
        regs.len() == 32,
    ensures
        arm_exec(0x9B00_7C00u32 | (9u32 << 16u32) | (d << 5u32) | d, regs) == Some(
            regs.update(d as int, wrap(regs[d as int] * regs[9])),
        ),
{
    let w = 0x9B00_7C00u32 | (9u32 << 16u32) | (d << 5u32) | d;
    assert(w & 0xFFE0_0000 != 0x9280_0000 && w & 0xFFE0_0000 != 0xD280_0000 && w & 0xFFE0_0000
        != 0xF2A0_0000 && w & 0xFFE0_FC00 == 0x9B00_7C00 && w & 31 == d && (w >> 5u32) & 31 == d
        && (w >> 16u32) & 31 == 9) by (bit_vector)
        requires
            w == 0x9B00_7C00u32 | (9u32 << 16u32) | (d << 5u32) | d,
            d < 31,
    ;
}

proof fn lemma_exec_add_imm(d: u32, c: i32, regs: Seq<int>)
    requires
        d < 31,
        c != 0,
        -4095 <= c <= 4095,
        regs.len() == 32,
    ensures
        arm_exec(
            (if c > 0 {
                0x9100_0000u32
            } else {
                0xD100_0000u32
            }) | (((abs(c) as u32) & 0xFFFu32) << 10u32) | (d << 5u32) | d,
            regs,
        ) == Some(regs.update(d as int, wrap(regs[d as int] + c))),
{
    let base: u32 = if c > 0 {
        0x9100_0000u32
    } else {
        0xD100_0000u32
    };
    let a = abs(c) as u32;
    assert(a <= 4095);
    let imm = a & 0xFFFu32;
    assert(imm == a) by (bit_vector)
        requires
            imm == a & 0xFFFu32,
            a <= 4095,
    ;
    let w = base | (imm << 10u32) | (d << 5u32) | d;
    assert(w & 0xFFE0_0000 != 0x9280_0000 && w & 0xFFE0_0000 != 0xD280_0000 && w & 0xFFE0_0000
        != 0xF2A0_0000 && w & 0xFFE0_FC00 != 0x9B00_7C00 && w & 0xFFC0_0000 == base && w & 31 == d
        && (w >> 5u32) & 31 == d && (w >> 10u32) & 0xFFF == imm) by (bit_vector)
        requires
            w == base | (imm << 10u32) | (d << 5u32) | d,
            base == 0x9100_0000u32 || base == 0xD100_0000u32,
            d < 31,
            imm <= 4095,
    ;
}

proof fn lemma_exec_add_reg(d: u32, r: u32, neg: bool, regs: Seq<int>)
    requires
        d < 31,
        r < 31,
        regs.len() == 32,
    ensures
        arm_exec(
            (if neg {
                0xCB00_0000u32
            } else {
                0x8B00_0000u32
            }) | (r << 16u32) | (d << 5u32) | d,
            regs,
        ) == Some(
            regs.update(
                d as int,
                wrap(
                    if neg {
                        regs[d as int] - regs[r as int]
                    } else {
                        regs[d as int] + regs[r as int]
                    },
                ),
            ),
        ),
{
    let base: u32 = if neg {
        0xCB00_0000u32
    } else {
        0x8B00_0000u32
    };
    let w = base | (r << 16u32) | (d << 5u32) | d;
    assert(w & 0xFFE0_0000 != 0x9280_0000 && w & 0xFFE0_0000 != 0xD280_0000 && w & 0xFFE0_0000
        != 0xF2A0_0000 && w & 0xFFE0_FC00 != 0x9B00_7C00 && w & 0xFFC0_0000 != 0x9100_0000 && w
        & 0xFFC0_0000 != 0xD100_0000 && w & 0xFFE0_FC00 == base && w & 31 == d && (w >> 5u32) & 31
        == d && (w >> 16u32) & 31 == r) by (bit_vector)
        requires
            w == base | (r << 16u32) | (d << 5u32) | d,
            base == 0xCB00_0000u32 || base == 0x8B00_0000u32,
            d < 31,
            r < 31,
    ;
}

proof fn lemma_wrap_add(a: int, b: int)
    ensures
        wrap(wrap(a) + b) == wrap(a + b),
{
    lemma_add_mod_noop(a, b, 0x1_0000_0000_0000_0000int);
    lemma_add_mod_noop_right(a % 0x1_0000_0000_0000_0000int, b, 0x1_0000_0000_0000_0000int);
}

proof fn lemma_wrap_small(a: int)
    requires
        0 <= a < 0x1_0000_0000_0000_0000,
    ensures
        wrap(a) == a,
{
    lemma_small_mod(a as nat, 0x1_0000_0000_0000_0000nat);
}

/// The word that adds (or, for `neg`, subtracts) register `r` to register `d`.
pub open spec fn add_reg_word(d: u32, r: u32, neg: bool) -> u32 {
    (if neg {
        0xCB00_0000u32
    } else {
        0x8B00_0000u32
    }) | (r << 16u32) | (d << 5u32) | d
}

proof fn lemma_arm_run_repeat(neg: bool, r: u32, d: u32, n: nat, rest: Seq<u8>, regs: Seq<int>)
    requires
        d < 31,
        r < 31,
        r != d,
        regs.len() == 32,
        0 <= regs[d as int] < 0x1_0000_0000_0000_0000,
    ensures
        arm_run(repeat(le_u32(add_reg_word(d, r, neg)), n) + rest, regs) == arm_run(
            rest,
            regs.update(
                d as int,
                wrap(regs[d as int] + (if neg { -1int } else { 1int }) * n * regs[r as int]),
            ),
        ),
    decreases n,
{
    let u = le_u32(add_reg_word(d, r, neg));
    let sg: int = if neg { -1int } else { 1int };
    if n == 0 {
        assert(repeat(u, n) + rest =~= rest);
        assert(regs[d as int] + sg * n * regs[r as int] == regs[d as int]) by (nonlinear_arith)
            requires n == 0;
        lemma_wrap_small(regs[d as int]);
        assert(regs.update(d as int, wrap(regs[d as int])) =~= regs);
    } else {
        let m = (n - 1) as nat;
        assert(repeat(u, n) + rest =~= repeat(u, m) + (u + rest));
        lemma_arm_run_repeat(neg, r, d, m, u + rest, regs);
        let r1 = regs.update(d as int, wrap(regs[d as int] + sg * m * regs[r as int]));
        lemma_exec_add_reg(d, r, neg, r1);
        lemma_arm_cons(add_reg_word(d, r, neg), rest, r1);
        assert(r1[r as int] == regs[r as int]);
        lemma_wrap_add(regs[d as int] + sg * m * regs[r as int], sg * regs[r as int]);
        assert(regs[d as int] + sg * m * regs[r as int] + sg * regs[r as int] == regs[d as int] + sg
            * n * regs[r as int]) by (nonlinear_arith)
            requires m + 1 == n;
        assert(r1.update(
            d as int,
            wrap(if neg { r1[d as int] - r1[r as int] } else { r1[d as int] + r1[r as int] }),
        ) =~= regs.update(d as int, wrap(regs[d as int] + sg * n * regs[r as int])));
    }
}

proof fn lemma_arm_run_terms(d: u32, k: Seq<i32>, n: nat, rest: Seq<u8>, regs: Seq<int>)
    requires
        d < 31,
        n <= 32,
        k.len() == 32,
        k[31] == 0,
        regs.len() == 32,
        0 <= regs[d as int] < 0x1_0000_0000_0000_0000,
    ensures
        arm_run(arm_register_terms(d, k, n) + rest, regs) == arm_run(
            rest,
            regs.update(d as int, wrap(regs[d as int] + dot_except(k, regs, n, d as int))),
        ),
    decreases n,
{
    if n == 0 {
        assert(arm_register_terms(d, k, n) + rest =~= rest);
        lemma_wrap_small(regs[d as int]);
        assert(regs.update(d as int, wrap(regs[d as int])) =~= regs);
    } else {
        let m = (n - 1) as nat;
        let r = n - 1;
        let term = arm_register_term(d, r, k[r]);
        assert(arm_register_terms(d, k, n) + rest =~= arm_register_terms(d, k, m) + (term + rest));
        lemma_arm_run_terms(d, k, m, term + rest, regs);
        let r1 = regs.update(d as int, wrap(regs[d as int] + dot_except(k, regs, m, d as int)));
        let t = if r == d { 0 } else { k[r] * regs[r] };
        if r == d || k[r] == 0 {
            assert(term + rest =~= rest);
            assert(t == 0) by (nonlinear_arith)
                requires r == d || k[r] == 0, t == (if r == d { 0 } else { k[r] * regs[r] });
            lemma_wrap_small(r1[d as int]);
            assert(r1.update(d as int, wrap(r1[d as int])) =~= r1);
        } else {
            assert(r < 31);
            let neg = !(k[r] > 0);
            assert(term == repeat(le_u32(add_reg_word(d, r as u32, neg)), abs(k[r])));
            lemma_arm_run_repeat(neg, r as u32, d, abs(k[r]), rest, r1);
            assert(r1[r] == regs[r]);
            let sg: int = if neg { -1int } else { 1int };
            let nn = abs(k[r]);
            assert(sg * nn * regs[r] == k[r] * regs[r]) by (nonlinear_arith)
                requires
                    (k[r] > 0 ==> sg == 1 && nn == k[r]),
                    (k[r] < 0 ==> sg == -1 && nn == -k[r]),
                    k[r] != 0;
        }
        lemma_wrap_add(regs[d as int] + dot_except(k, regs, m, d as int), t);
        assert(r1.update(d as int, wrap(r1[d as int] + t)) =~= regs.update(
            d as int,
            wrap(regs[d as int] + dot_except(k, regs, n, d as int)),
        ));
    }
}

proof fn lemma_arm_run_head(d: u32, c: i32, coef: i32, rest: Seq<u8>, regs: Seq<int>) -> (after: Seq<int>)
    requires
        d < 31,
        d != 9,
        0 <= coef <= 0xFFFF,
        coef == 0 ==> c >= -65536,
        coef != 0 ==> -4095 <= c <= 4095,
        regs.len() == 32,
        0 <= regs[d as int] < 0x1_0000_0000_0000_0000,
    ensures
        arm_run(arm_register_head(d, c, coef) + rest, regs) == arm_run(rest, after),
        after.len() == 32,
        after[d as int] == wrap(c + coef * regs[d as int]),
        forall|i: int| 0 <= i < 32 && i != d && i != 9 ==> #[trigger] after[i] == regs[i],
{
    let x = regs[d as int];
    if coef == 0 {
        assert(c + coef * x == c) by (nonlinear_arith)
            requires coef == 0;
        if c < 0 {
            lemma_exec_movn(d, c, regs);
            lemma_arm_cons(0x9280_0000u32 | (((!(c as u32)) & 0xFFFFu32) << 5u32) | d, rest, regs);
            regs.update(d as int, wrap(c as int))
        } else {
            let v = c as u32;
            let low = v & 0xFFFFu32;
            let hi = v >> 16u32;
            assert(low <= 0xFFFF && hi <= 0xFFFF && low + hi * 0x10000 == v) by (bit_vector)
                requires
                    low == v & 0xFFFFu32,
                    hi == v >> 16u32,
                    v < 0x8000_0000,
            ;
            lemma_wrap_small(c as int);
            lemma_exec_movz(d, low, regs);
            let r1 = regs.update(d as int, low as int);
            let movz = le_u32(0xD280_0000u32 | (low << 5u32) | d);
            let movk = if hi != 0 {
                le_u32(0xF2A0_0000u32 | (hi << 5u32) | d)
            } else {
                seq![]
            };
            assert(arm_register_head(d, c, coef) + rest =~= movz + (movk + rest));
            lemma_arm_cons(0xD280_0000u32 | (low << 5u32) | d, movk + rest, regs);
            if hi != 0 {
                lemma_exec_movk(d, hi, r1);
                lemma_arm_cons(0xF2A0_0000u32 | (hi << 5u32) | d, rest, r1);
                let r2 = r1.update(d as int, low + hi * 0x10000);
                assert(r2 =~= regs.update(d as int, c as int));
                r2
            } else {
                assert(movk + rest =~= rest);
                r1
            }
        }
    } else {
        let mulc = if coef != 1 {
            le_u32(0xD280_0000u32 | (((abs(coef) as u32) & 0xFFFFu32) << 5u32) | 9u32) + le_u32(
                0x9B00_7C00u32 | (9u32 << 16u32) | (d << 5u32) | d,
            )
        } else {
            seq![]
        };
        let addw: u32 = (if c > 0 {
            0x9100_0000u32
        } else {
            0xD100_0000u32
        }) | (((abs(c) as u32) & 0xFFFu32) << 10u32) | (d << 5u32) | d;
        let addc = if c != 0 {
            le_u32(addw)
        } else {
            seq![]
        };
        assert(arm_register_head(d, c, coef) + rest =~= mulc + (addc + rest));
        let r1 = if coef != 1 {
            regs.update(9, coef as int).update(d as int, wrap(x * coef))
        } else {
            regs
        };
        if coef != 1 {
            let a = abs(coef) as u32;
            let imm = a & 0xFFFFu32;
            assert(imm == a) by (bit_vector)
                requires imm == a & 0xFFFFu32, a <= 0xFFFF;
            lemma_exec_movz(9, imm, regs);
            let r0 = regs.update(9, coef as int);
            lemma_exec_mul(d, r0);
            assert(r0[d as int] == x);
            let mulw = 0x9B00_7C00u32 | (9u32 << 16u32) | (d << 5u32) | d;
            assert(mulc + (addc + rest) =~= le_u32(0xD280_0000u32 | (imm << 5u32) | 9u32) + (le_u32(mulw) + (addc + rest)));
            lemma_arm_cons(0xD280_0000u32 | (imm << 5u32) | 9u32, le_u32(mulw) + (addc + rest), regs);
            lemma_arm_cons(mulw, addc + rest, r0);
            assert(r0.update(d as int, wrap(r0[d as int] * r0[9])) =~= r1);
        } else {
            assert(mulc + (addc + rest) =~= addc + rest);
        }
        assert(arm_run(arm_register_head(d, c, coef) + rest, regs) == arm_run(addc + rest, r1));
        assert(c + coef * x == x * coef + c) by (nonlinear_arith);
        if coef == 1 {
            assert(x * coef == x) by (nonlinear_arith) requires coef == 1;
        }
        assert(0 <= r1[d as int] < 0x1_0000_0000_0000_0000);
        if c != 0 {
            lemma_exec_add_imm(d, c, r1);
            lemma_arm_cons(addw, rest, r1);
            let r2 = r1.update(d as int, wrap(r1[d as int] + c));
            if coef != 1 {
                lemma_wrap_add(x * coef, c as int);
            }
            r2
        } else {
            assert(addc + rest =~= rest);
            if coef == 1 {
                lemma_wrap_small(x);
            }
            r1
        }
    }
}

proof fn lemma_dot_except_agree(k: Seq<i32>, x: Seq<int>, y: Seq<int>, n: nat, d: int)
    requires
        forall|i: int| 0 <= i < n && i != d ==> k[i] == 0 || #[trigger] x[i] == y[i],
    ensures
        dot_except(k, x, n, d) == dot_except(k, y, n, d),
    decreases n,
{
    if n > 0 {
        lemma_dot_except_agree(k, x, y, (n - 1) as nat, d);
        let i = n - 1;
        if i != d && k[i] == 0 {
            assert(k[i] * x[i] == 0 && k[i] * y[i] == 0) by (nonlinear_arith) requires k[i] == 0;
        }
    }
}

proof fn lemma_dot_split(k: Seq<i32>, x: Seq<int>, n: nat, d: int)
    ensures
        dot(k, x, n) == dot_except(k, x, n, d) + if 0 <= d < n {
            k[d] * x[d]
        } else {
            0
        },
    decreases n,
{
    if n > 0 {
        lemma_dot_split(k, x, (n - 1) as nat, d);
    }
}

/// Running the code that loads register `d` with a linear form sets `d` to the form's value
/// modulo 2^64, taken over the registers' values before it, and leaves every register but `d`
/// and the scratch register 9 as it was. (Where the code can do so: `d` is neither the stack
/// pointer nor register 9, the form has no coefficient for 9 or 31, its coefficient for `d`
/// fits the 16 bits of `movz`, and its constant the 12 bits of `add`, or, where `d` is not
/// read, the 17 bits of `movn`.)
pub proof fn lemma_arm_register_code_runs(d: u8, v: Linear, regs: Seq<int>)
    requires
        d < 31,
        d != 9,
        v.1.len() == 32,
        v.1[9] == 0,
        v.1[31] == 0,
        0 <= v.1[d as int] <= 0xFFFF,
        v.1[d as int] == 0 ==> v.0 >= -65536,
        v.1[d as int] != 0 ==> -4095 <= v.0 <= 4095,
        regs.len() == 32,
        forall|i: int| 0 <= i < 32 ==> 0 <= #[trigger] regs[i] < 0x1_0000_0000_0000_0000,
    ensures
        arm_run(arm_register_code(d, v), regs) matches Some(out) && out.len() == 32 && out[d as int]
            == wrap(value_of(v, regs)) && forall|i: int|
            0 <= i < 32 && i != d && i != 9 ==> #[trigger] out[i] == regs[i],
{
    let k = v.1;
    let c = v.0;
    let x = regs[d as int];
    let dd = d as u32;
    let terms = arm_register_terms(dd, k, 32);
    assert(arm_register_code(d, v) =~= arm_register_head(dd, c, k[d as int]) + (terms + seq![]));
    let r1 = lemma_arm_run_head(dd, c, k[d as int], terms + seq![], regs);
    assert(0 <= r1[d as int] < 0x1_0000_0000_0000_0000);
    lemma_arm_run_terms(dd, k, 32, seq![], r1);
    reveal_with_fuel(arm_run, 1);
    lemma_dot_except_agree(k, r1, regs, 32, d as int);
    lemma_wrap_add(c + k[d as int] * x, dot_except(k, regs, 32, d as int));
    lemma_dot_split(k, regs, 32, d as int);
}

/// On AArch64, the code that `assemble_register` gives for register `d` and an expression
/// sets `d`, modulo 2^64, to the expression's linear form evaluated over the registers as
/// they were, which is the expression's own value wherever it has one (see
/// [`eval_expression`]), and leaves every register but `d` and the scratch register 9 as it
/// was. (Where the code can do so: see [`lemma_arm_register_code_runs`]; no expression gives
/// register 9 a coefficient, since no name denotes it.)
pub proof fn lemma_arm_register_load(isa: &Isa, d: u8, s: Seq<char>, regs: Seq<int>)
    requires
        is_aarch64(isa),
        d < 31,
        d != 9,
        spec_parse_expression(isa, s) matches Some(v) && v.1[31] == 0 && 0 <= v.1[d as int]
            <= 0xFFFF && (v.1[d as int] == 0 ==> v.0 >= -65536) && (v.1[d as int] != 0 ==> -4095
            <= v.0 <= 4095),
        regs.len() == 32,
        forall|i: int| 0 <= i < 32 ==> 0 <= #[trigger] regs[i] < 0x1_0000_0000_0000_0000,
    ensures
        ({
            let v = spec_parse_expression(isa, s)->0;
            &&& arm_run(arm_register_code(d, v), regs) matches Some(out) && out[d as int] == wrap(
                value_of(v, regs),
            ) && forall|i: int| 0 <= i < 32 && i != d && i != 9 ==> #[trigger] out[i] == regs[i]
            &&& eval_expression(isa, s, regs) matches Some(n) ==> arm_run(
                arm_register_code(d, v),
                regs,
            ) matches Some(out) && out[d as int] == wrap(n)
        }),
{
    let v = spec_parse_expression(isa, s)->0;
    lemma_parse_only_registers(isa, s);
    assert(!is_register_number(isa, 9)) by {
        assert forall|n: Seq<char>| #[trigger] isa.spec_reg(n) != Some(9u8) by {
            reveal_with_fuel(find_reg, 10);
        }
    }
    lemma_arm_register_code_runs(d, v, regs);
    lemma_parse_evaluates(isa, s, regs);
}

/// The flags that comparing the 64-bit values `a` and `b` (a subtraction, given here as signed
/// numbers) sets: negative, zero, carry (`a` not below `b` taken unsigned) and overflow.
pub open spec fn compare_flags(a: int, b: int) -> (bool, bool, bool, bool) {
    let r = a - b;
    let w = if r > i64::MAX {
        r - 0x1_0000_0000_0000_0000
    } else if r < i64::MIN {
        r + 0x1_0000_0000_0000_0000
    } else {
        r
    };
    let ua = if a < 0 {
        a + 0x1_0000_0000_0000_0000
    } else {
        a
    };
    let ub = if b < 0 {
        b + 0x1_0000_0000_0000_0000
    } else {
        b
    };
    (w < 0, w == 0, ua >= ub, w != r)
}

/// Whether the AArch64 condition `cond` (0 to 15) holds on the flags `(n, z, c, v)`: EQ, CS,
/// MI, VS, HI, GE, GT and AL for the even codes, each odd code the opposite of the code before
/// it (but for 15, always).
pub open spec fn condition_holds(cond: u32, f: (bool, bool, bool, bool)) -> bool {
    let (n, z, c, v) = f;
    let base = if cond / 2 == 0 {
        z
    } else if cond / 2 == 1 {
        c
    } else if cond / 2 == 2 {
        n
    } else if cond / 2 == 3 {
        v
    } else if cond / 2 == 4 {
        c && !z
    } else if cond / 2 == 5 {
        n == v
    } else if cond / 2 == 6 {
        n == v && !z
    } else {
        true
    };
    if cond % 2 == 1 && cond != 15 {
        !base
    } else {
        base
    }
}

/// What a comparison operator says of two numbers.
pub open spec fn comparison_holds(op: Seq<char>, a: int, b: int) -> bool {
    ||| op == "=="@ && a == b
    ||| op == "!="@ && a != b
    ||| op == "<="@ && a <= b
    ||| op == ">="@ && a >= b
    ||| op == "<"@ && a < b
    ||| op == ">"@ && a > b
}

/// The signed comparison flags: `n != v` exactly when `a < b`, and `z` exactly when `a == b`.
pub(crate) proof fn lemma_compare_flags(a: int, b: int)
    requires
        i64::MIN <= a <= i64::MAX,
        i64::MIN <= b <= i64::MAX,
    ensures
        (compare_flags(a, b).0 != compare_flags(a, b).3) <==> a < b,
        compare_flags(a, b).1 <==> a == b,
{
}

pub(crate) proof fn lemma_operator_texts()
    ensures
        operator_text(0) == "=="@,
        operator_text(1) == "!="@,
        operator_text(2) == "<="@,
        operator_text(3) == ">="@,
        operator_text(4) == "<"@,
        operator_text(5) == ">"@,
        "=="@ != "!="@ && "=="@ != "<="@ && "=="@ != ">="@ && "=="@ != "<"@ && "=="@ != ">"@,
        "!="@ != "<="@ && "!="@ != ">="@ && "!="@ != "<"@ && "!="@ != ">"@,
        "<="@ != ">="@ && "<="@ != "<"@ && "<="@ != ">"@,
        ">="@ != "<"@ && ">="@ != ">"@,
        "<"@ != ">"@,
{
    reveal_strlit("==");
    reveal_strlit("!=");
    reveal_strlit("<=");
    reveal_strlit(">=");
    reveal_strlit("<");
    reveal_strlit(">");
    assert("=="@[0] != "!="@[0]);
    assert("=="@[0] != "<="@[0]);
    assert("=="@[0] != ">="@[0]);
    assert("=="@.len() != "<"@.len());
    assert("=="@.len() != ">"@.len());
    assert("!="@[0] != "<="@[0]);
    assert("!="@[0] != ">="@[0]);
    assert("!="@.len() != "<"@.len());
    assert("!="@.len() != ">"@.len());
    assert("<="@[0] != ">="@[0]);
    assert("<="@.len() != "<"@.len());
    assert("<="@.len() != ">"@.len());
    assert(">="@.len() != "<"@.len());
    assert(">="@.len() != ">"@.len());
    assert("<"@[0] != ">"@[0]);
}

proof fn lemma_arm_register_number(isa: &Isa, n: Seq<char>)
    requires
        is_aarch64(isa),
    ensures
        isa.spec_reg(n) matches Some(r) ==> r < 32,
{
    reveal_with_fuel(find_reg, 10);
}

proof fn lemma_branch_word(i: int)
    requires
        0 <= i < 6,
    ensures
        from_le(le_u32(0x5400_0000u32 | arm_condition_code(i))) & 0xFF00_0010 == 0x5400_0000,
        from_le(le_u32(0x5400_0000u32 | arm_condition_code(i))) & 0xF == arm_condition_code(i),
{
    let cond = arm_condition_code(i);
    let bw = 0x5400_0000u32 | cond;
    lemma_from_le(bw);
    assert(cond <= 13);
    assert(bw & 0xFF00_0010 == 0x5400_0000 && bw & 0xF == cond) by (bit_vector)
        requires
            bw == 0x5400_0000u32 | cond,
            cond <= 13,
    ;
}

proof fn lemma_condition_meaning(i: int, a: int, b: int)
    requires
        0 <= i < 6,
        i64::MIN <= a <= i64::MAX,
        i64::MIN <= b <= i64::MAX,
    ensures
        condition_holds(arm_condition_code(i), compare_flags(a, b)) == comparison_holds(
            operator_text(i),
            a,
            b,
        ),
{
    lemma_compare_flags(a, b);
    lemma_operator_texts();
}

proof fn lemma_compare_register_word(n: u32, m: u32)
    requires
        n < 32,
        m < 32,
    ensures
        ({
            let cw = from_le(le_u32(0xEB00_001Fu32 | (m << 16u32) | (n << 5u32)));
            cw & 0xFFE0_FC1F == 0xEB00_001F && (cw >> 16u32) & 31 == m && (cw >> 5u32) & 31 == n
        }),
{
    let cw = 0xEB00_001Fu32 | (m << 16u32) | (n << 5u32);
    lemma_from_le(cw);
    assert(cw & 0xFFE0_FC1F == 0xEB00_001F && (cw >> 16u32) & 31 == m && (cw >> 5u32) & 31 == n)
        by (bit_vector)
        requires
            cw == 0xEB00_001Fu32 | (m << 16u32) | (n << 5u32),
            m < 32,
            n < 32,
    ;
}

proof fn lemma_compare_immediate_word(n: u32, x: u32)
    requires
        n < 32,
    ensures
        ({
            let cw = from_le(le_u32(0xF100_001Fu32 | ((x & 0xFFFu32) << 10u32) | (n << 5u32)));
            cw & 0xFFC0_001F == 0xF100_001F && (cw >> 10u32) & 0xFFF == x & 0xFFF && (cw >> 5u32)
                & 31 == n
        }),
{
    let cw = 0xF100_001Fu32 | ((x & 0xFFFu32) << 10u32) | (n << 5u32);
    lemma_from_le(cw);
    assert(cw & 0xFFC0_001F == 0xF100_001F && (cw >> 10u32) & 0xFFF == x & 0xFFF && (cw >> 5u32)
        & 31 == n) by (bit_vector)
        requires
            cw == 0xF100_001Fu32 | ((x & 0xFFFu32) << 10u32) | (n << 5u32),
            n < 32,
    ;
}

/// On AArch64 the compare of a condition is `cmp` (`subs` into the zero register) of the left
/// register with the right register, or with the right number (its low 12 bits), and the
/// branch is a `b.cond` whose condition holds on the flags of comparing any two values `a`
/// and `b` exactly when the condition's operator holds of `a` and `b` (as signed numbers).
pub proof fn lemma_arm_compare(isa: &Isa, condition: Seq<char>, a: int, b: int)
    requires
        is_aarch64(isa),
        condition_ok(isa, condition, false),
        i64::MIN <= a <= i64::MAX,
        i64::MIN <= b <= i64::MAX,
    ensures
        ({
            let i = condition_operator(condition)->0;
            let r = condition_sides(condition, i).1;
            let n = spec_register_operand(isa, condition_sides(condition, i).0)->0 as u32;
            let cw = from_le(arm_compare_code(isa, condition).0);
            let bw = from_le(arm_compare_code(isa, condition).1);
            &&& bw & 0xFF00_0010 == 0x5400_0000
            &&& condition_holds(bw & 0xF, compare_flags(a, b)) == comparison_holds(
                operator_text(i),
                a,
                b,
            )
            &&& (cw >> 5u32) & 31 == n
            &&& spec_register_operand(isa, r) matches Some(m) ==> cw & 0xFFE0_FC1F == 0xEB00_001F
                && (cw >> 16u32) & 31 == m as u32
            &&& spec_register_operand(isa, r) is None ==> cw & 0xFFC0_001F == 0xF100_001F && (cw
                >> 10u32) & 0xFFF == parse_u32(trim(r))->0 & 0xFFF
        }),
{
    let i = condition_operator(condition)->0;
    lemma_operator_is_first(condition, i);
    let l = condition_sides(condition, i).0;
    let r = condition_sides(condition, i).1;
    lemma_arm_register_number(isa, operand_name(l)->0);
    let n = spec_register_operand(isa, l)->0 as u32;
    lemma_branch_word(i);
    lemma_condition_meaning(i, a, b);
    match spec_register_operand(isa, r) {
        Some(m) => {
            lemma_arm_register_number(isa, operand_name(r)->0);
            lemma_compare_register_word(n, m as u32);
        },
        None => {
            lemma_compare_immediate_word(n, parse_u32(trim(r))->0);
        },
    }
}

/// An AArch64 load or store word reads back as the register, the base register and the
/// displacement it was made of (the 12-bit field counts 8-byte units), keeping the opcode,
/// wherever those fit their fields.
pub proof fn lemma_arm_memory_word(operation: u32, register: u8, base: u8, displacement: i32)
    requires
        operation & 0x003F_FFFF == 0,
        register < 32,
        base < 32,
        0 <= displacement,
        displacement % 8 == 0,
        displacement / 8 < 4096,
    ensures
        ({
            let w = arm_memory_word(operation, register, base, displacement);
            &&& w & 31 == register
            &&& (w >> 5u32) & 31 == base
            &&& ((w >> 10u32) & 0xFFF) * 8 == displacement
            &&& w & 0xFFC0_0000 == operation & 0xFFC0_0000
        }),
{
    let d = displacement as u32;
    let q = d / 8;
    assert(q < 4096 && q * 8 == d);
    let r = register as u32;
    let b = base as u32;
    let w = operation | (q << 10u32) | (b << 5u32) | r;
    assert(w & 31 == r && (w >> 5u32) & 31 == b && (w >> 10u32) & 0xFFF == q && w & 0xFFC0_0000
        == operation & 0xFFC0_0000) by (bit_vector)
        requires
            w == operation | (q << 10u32) | (b << 5u32) | r,
            operation & 0x003F_FFFF == 0,
            q < 4096,
            b < 32,
            r < 32,
    ;
}

} // verus!
