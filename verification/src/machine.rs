//! What the x86-64 code of a register load does: the meaning of the few instructions that
//! the encoder emits for it, on the eight registers that need no REX.B prefix.
use vstd::prelude::*;
use vstd::arithmetic::div_mod::{lemma_add_mod_noop, lemma_add_mod_noop_right, lemma_small_mod};
use crate::common::{le_i32, le_u32, lemma_modrm_fields, spec_modrm, ADD, SUB};
use crate::encoder::arm::from_le;
use crate::target::{find_reg, is_x86_64, Isa};
use crate::arm_machine::{comparison_holds, compare_flags, lemma_compare_flags, lemma_operator_texts};
use crate::text::{parse_i32, trim};
use crate::encoder::{
    condition_ok, condition_operator, condition_sides, lemma_operator_is_first, operator_text,
    spec_register_operand, x86_compare_code, x86_condition_code,
    memory_base, memory_displacement, memory_ok, x86_memory_code, x86_memory_mode,
    eval_expression, lemma_parse_evaluates, lemma_x86_parse_low_registers, spec_parse_expression,
    abs, dot, repeat, value_of, x86_register_code, x86_register_head, x86_register_term,
    x86_register_terms, Linear,
};

verus! {

/// A 64-bit register's value of the integer `x`: `x` modulo 2^64.
pub open spec fn wrap(x: int) -> int {
    x % 0x1_0000_0000_0000_0000
}

/// The sign-extended 32-bit immediate at `code[at..at + 4]`.
pub open spec fn imm32(code: Seq<u8>, at: int) -> int {
    (from_le(code.subrange(at, at + 4)) as i32) as int
}

/// The instruction at the start of `code`, with register-direct operands (ModR/M mode 3):
/// the registers after it and its length. `mov r, imm32`, `imul r, r, imm32`,
/// `add r, imm32`, `add r, r` and `sub r, r`, each with REX.W; `None` for anything else.
#[verifier::opaque]
pub open spec fn x86_step(code: Seq<u8>, regs: Seq<int>) -> Option<(Seq<int>, nat)> {
    if code.len() < 3 || code[0] != 0x48 || code[2] >> 6u8 != 3 {
        None
    } else {
        let m = code[2];
        let reg = ((m >> 3u8) & 7) as int;
        let rm = (m & 7) as int;
        let op = code[1];
        if op == 0x01 {
            Some((regs.update(rm, wrap(regs[rm] + regs[reg])), 3))
        } else if op == 0x29 {
            Some((regs.update(rm, wrap(regs[rm] - regs[reg])), 3))
        } else if code.len() < 7 {
            None
        } else if op == 0xC7 && reg == 0 {
            Some((regs.update(rm, wrap(imm32(code, 3))), 7))
        } else if op == 0x69 {
            Some((regs.update(reg, wrap(regs[rm] * imm32(code, 3))), 7))
        } else if op == 0x81 && reg == 0 {
            Some((regs.update(rm, wrap(regs[rm] + imm32(code, 3))), 7))
        } else {
            None
        }
    }
}

/// The registers after running `code` from `regs`; `None` where it holds an instruction
/// outside [`x86_step`].
#[verifier::opaque]
pub open spec fn x86_run(code: Seq<u8>, regs: Seq<int>) -> Option<Seq<int>>
    decreases code.len(),
{
    if code.len() == 0 {
        Some(regs)
    } else {
        match x86_step(code, regs) {
            None => None,
            Some((r, n)) => if 0 < n <= code.len() {
                x86_run(code.skip(n as int), r)
            } else {
                None
            },
        }
    }
}

proof fn lemma_run_cons(ins: Seq<u8>, rest: Seq<u8>, regs: Seq<int>, after: Seq<int>)
    requires
        x86_step(ins, regs) == Some((after, ins.len())),
    ensures
        x86_run(ins + rest, regs) == x86_run(rest, after),
{
    reveal(x86_step);
    reveal_with_fuel(x86_run, 1);
    let code = ins + rest;
    assert(code[0] == ins[0] && code[1] == ins[1] && code[2] == ins[2]);
    if ins.len() == 7 {
        assert(code.subrange(3, 7) =~= ins.subrange(3, 7));
    }
    assert(x86_step(code, regs) == x86_step(ins, regs));
    assert(code.skip(ins.len() as int) =~= rest);
}

proof fn lemma_imm(p: Seq<u8>, c: i32)
    ensures
        imm32(p + le_i32(c), p.len() as int) == c,
{
    let w = c as u32;
    let b = p + le_i32(c);
    assert(b.subrange(p.len() as int, p.len() as int + 4) =~= le_u32(w));
    let (b0, b1, b2, b3) = ((w & 0xff) as u8, ((w >> 8u32) & 0xff) as u8, ((w >> 16u32) & 0xff) as u8, ((w >> 24u32) & 0xff) as u8);
    assert((b0 as u32) | ((b1 as u32) << 8u32) | ((b2 as u32) << 16u32) | ((b3 as u32) << 24u32) == w) by (bit_vector)
        requires
            b0 == (w & 0xff) as u8,
            b1 == ((w >> 8u32) & 0xff) as u8,
            b2 == ((w >> 16u32) & 0xff) as u8,
            b3 == ((w >> 24u32) & 0xff) as u8,
    ;
    assert((w as i32) == c) by (bit_vector)
        requires
            w == c as u32,
    ;
}

proof fn lemma_step_imm(op: u8, reg: u8, d: u8, c: i32, regs: Seq<int>)
    requires
        reg < 8,
        d < 8,
    ensures
        ({
            let code = seq![0x48u8, op, spec_modrm(3, reg, d)] + le_i32(c);
            &&& code.len() == 7
            &&& op == 0xC7 && reg == 0 ==> x86_step(code, regs) == Some((regs.update(d as int, wrap(c as int)), 7nat))
            &&& op == 0x69 ==> x86_step(code, regs) == Some((regs.update(reg as int, wrap(regs[d as int] * c)), 7nat))
            &&& op == 0x81 && reg == 0 ==> x86_step(code, regs) == Some((regs.update(d as int, wrap(regs[d as int] + c)), 7nat))
        }),
{
    reveal(x86_step);
    lemma_modrm_fields(3, reg, d);
    lemma_imm(seq![0x48u8, op, spec_modrm(3, reg, d)], c);
}

proof fn lemma_step_reg(sub: bool, r: u8, d: u8, regs: Seq<int>)
    requires
        r < 8,
        d < 8,
    ensures
        ({
            let code = (if sub { SUB@ } else { ADD@ }) + seq![spec_modrm(3, r, d)];
            &&& code.len() == 3
            &&& x86_step(code, regs) == Some((regs.update(d as int, wrap(if sub { regs[d as int] - regs[r as int] } else { regs[d as int] + regs[r as int] })), 3nat))
        }),
{
    reveal(x86_step);
    lemma_modrm_fields(3, r, d);
    let code = (if sub { SUB@ } else { ADD@ }) + seq![spec_modrm(3, r, d)];
    assert(code[0] == 0x48 && code[2] == spec_modrm(3, r, d));
    assert(code[1] == if sub { 0x29u8 } else { 0x01u8 });
}

proof fn lemma_wrap_add(a: int, b: int)
    ensures
        wrap(wrap(a) + b) == wrap(a + b),
{
    let m = 0x1_0000_0000_0000_0000int;
    lemma_add_mod_noop(a, b, m);
    lemma_add_mod_noop_right(a % m, b, m);
}

/// `n` times adding (or, for `sub`, subtracting) register `r` to register `d`.
proof fn lemma_run_repeat(sub: bool, r: u8, d: u8, n: nat, rest: Seq<u8>, regs: Seq<int>)
    requires
        r < 8,
        d < 8,
        r != d,
        regs.len() == 8,
        0 <= regs[d as int] < 0x1_0000_0000_0000_0000,
    ensures
        x86_run(repeat((if sub { SUB@ } else { ADD@ }) + seq![spec_modrm(3, r, d)], n) + rest, regs)
            == x86_run(rest, regs.update(d as int, wrap(regs[d as int] + (if sub { -1int } else { 1int }) * n * regs[r as int]))),
    decreases n,
{
    let u = (if sub { SUB@ } else { ADD@ }) + seq![spec_modrm(3, r, d)];
    let sg: int = if sub { -1int } else { 1int };
    if n == 0 {
        assert(repeat(u, n) + rest =~= rest);
        assert(regs[d as int] + sg * n * regs[r as int] == regs[d as int]) by (nonlinear_arith)
            requires n == 0;
        lemma_small_mod(regs[d as int] as nat, 0x1_0000_0000_0000_0000nat);
        assert(regs.update(d as int, wrap(regs[d as int])) =~= regs);
    } else {
        let m = (n - 1) as nat;
        assert(repeat(u, n) + rest =~= repeat(u, m) + (u + rest));
        lemma_run_repeat(sub, r, d, m, u + rest, regs);
        let r1 = regs.update(d as int, wrap(regs[d as int] + sg * m * regs[r as int]));
        lemma_step_reg(sub, r, d, r1);
        lemma_run_cons(u, rest, r1, r1.update(d as int, wrap(if sub { r1[d as int] - r1[r as int] } else { r1[d as int] + r1[r as int] })));
        assert(r1[r as int] == regs[r as int]);
        lemma_wrap_add(regs[d as int] + sg * m * regs[r as int], sg * regs[r as int]);
        assert(regs[d as int] + sg * m * regs[r as int] + sg * regs[r as int] == regs[d as int] + sg * n * regs[r as int]) by (nonlinear_arith)
            requires m + 1 == n;
        assert(r1.update(d as int, wrap(if sub { r1[d as int] - r1[r as int] } else { r1[d as int] + r1[r as int] }))
            =~= regs.update(d as int, wrap(regs[d as int] + sg * n * regs[r as int])));
    }
}

/// `k[i] * x[i]` summed over `i < n` other than `d`.
pub open spec fn dot_except(k: Seq<i32>, x: Seq<int>, n: nat, d: int) -> int
    decreases n,
{
    if n == 0 {
        0
    } else {
        dot_except(k, x, (n - 1) as nat, d) + if n - 1 == d {
            0
        } else {
            k[n - 1] * x[n - 1]
        }
    }
}

proof fn lemma_dot_split(k: Seq<i32>, x: Seq<int>, n: nat, d: int)
    ensures
        dot(k, x, n) == dot_except(k, x, n, d) + if 0 <= d < n {
            k[d] * x[d]
        } else {
            0
        },
    decreases n,
{
    if n > 0 {
        lemma_dot_split(k, x, (n - 1) as nat, d);
    }
}

proof fn lemma_dot_except_update(k: Seq<i32>, x: Seq<int>, n: nat, d: int, val: int)
    requires
        n <= 32,
        0 <= d < 8,
        x.len() == 8,
        forall|i: int| 8 <= i < 32 ==> #[trigger] k[i] == 0,
    ensures
        dot_except(k, x.update(d, val), n, d) == dot_except(k, x, n, d),
    decreases n,
{
    if n > 0 {
        lemma_dot_except_update(k, x, (n - 1) as nat, d, val);
        let i = n - 1;
        if i != d {
            if i < 8 {
                assert(x.update(d, val)[i] == x[i]);
            } else {
                assert(k[i] == 0);
                assert(k[i] * x.update(d, val)[i] == 0 && k[i] * x[i] == 0) by (nonlinear_arith)
                    requires k[i] == 0;
            }
        }
    }
}

proof fn lemma_wrap_in_range(a: int)
    ensures
        0 <= wrap(a) < 0x1_0000_0000_0000_0000,
{
}

proof fn lemma_keep(regs: Seq<int>, d: int)
    requires
        0 <= d < regs.len(),
        0 <= regs[d] < 0x1_0000_0000_0000_0000,
    ensures
        regs.update(d, wrap(regs[d])) == regs,
{
    lemma_small_mod(regs[d] as nat, 0x1_0000_0000_0000_0000nat);
    assert(regs.update(d, wrap(regs[d])) =~= regs);
}

proof fn lemma_run_term(d: u8, r: int, coef: i32, rest: Seq<u8>, regs: Seq<int>)
    requires
        d < 8,
        0 <= r < 32,
        r < 8 || coef == 0,
        regs.len() == 8,
        0 <= regs[d as int] < 0x1_0000_0000_0000_0000,
    ensures
        x86_run(x86_register_term(d, r, coef) + rest, regs) == x86_run(
            rest,
            regs.update(d as int, wrap(regs[d as int] + if r == d { 0 } else { coef * regs[r] })),
        ),
{
    if r == d || coef == 0 {
        assert(x86_register_term(d, r, coef) + rest =~= rest);
        assert((if r == d { 0 } else { coef * regs[r] }) == 0) by (nonlinear_arith)
            requires r == d || coef == 0;
        lemma_keep(regs, d as int);
    } else {
        let sub = coef < 0;
        assert((if coef > 0 { ADD@ } else { SUB@ }) == (if sub { SUB@ } else { ADD@ }));
        lemma_run_repeat(sub, r as u8, d, abs(coef), rest, regs);
        let sg: int = if sub { -1int } else { 1int };
        let n = abs(coef);
        assert(sg * n * regs[r] == coef * regs[r]) by (nonlinear_arith)
            requires
                (coef > 0 ==> sg == 1 && n == coef),
                (coef < 0 ==> sg == -1 && n == -coef),
                coef != 0;
    }
}

proof fn lemma_run_terms(d: u8, k: Seq<i32>, n: nat, rest: Seq<u8>, regs: Seq<int>)
    requires
        d < 8,
        n <= 32,
        forall|i: int| 8 <= i < 32 ==> #[trigger] k[i] == 0,
        regs.len() == 8,
        0 <= regs[d as int] < 0x1_0000_0000_0000_0000,
    ensures
        x86_run(x86_register_terms(d, k, n) + rest, regs) == x86_run(
            rest,
            regs.update(d as int, wrap(regs[d as int] + dot_except(k, regs, n, d as int))),
        ),
    decreases n,
{
    if n == 0 {
        assert(x86_register_terms(d, k, n) + rest =~= rest);
        lemma_keep(regs, d as int);
    } else {
        let m = (n - 1) as nat;
        let r = n - 1;
        let term = x86_register_term(d, r, k[r]);
        assert(x86_register_terms(d, k, n) + rest =~= x86_register_terms(d, k, m) + (term + rest));
        lemma_run_terms(d, k, m, term + rest, regs);
        let r1 = regs.update(d as int, wrap(regs[d as int] + dot_except(k, regs, m, d as int)));
        lemma_wrap_in_range(regs[d as int] + dot_except(k, regs, m, d as int));
        if r >= 8 {
            assert(k[r] == 0);
        }
        lemma_run_term(d, r, k[r], rest, r1);
        let t = if r == d { 0 } else { k[r] * r1[r] };
        let t0 = if r == d { 0 } else { k[r] * regs[r] };
        if r != d {
            if r < 8 {
                assert(r1[r] == regs[r]);
            } else {
                assert(t == 0 && t0 == 0) by (nonlinear_arith)
                    requires k[r] == 0, t == k[r] * r1[r], t0 == k[r] * regs[r];
            }
        }
        assert(t == t0);
        lemma_wrap_add(regs[d as int] + dot_except(k, regs, m, d as int), t);
        assert(r1.update(d as int, wrap(r1[d as int] + t)) =~= regs.update(
            d as int,
            wrap(regs[d as int] + dot_except(k, regs, n, d as int)),
        ));
    }
}

proof fn lemma_run_head(d: u8, c: i32, coef: i32, rest: Seq<u8>, regs: Seq<int>)
    requires
        d < 8,
        regs.len() == 8,
        0 <= regs[d as int] < 0x1_0000_0000_0000_0000,
    ensures
        x86_run(x86_register_head(d, c, coef) + rest, regs) == x86_run(
            rest,
            regs.update(d as int, wrap(c + coef * regs[d as int])),
        ),
{
    let x = regs[d as int];
    let goal = regs.update(d as int, wrap(c + coef * x));
    if coef == 0 {
        let mov = seq![0x48u8, 0xC7u8, spec_modrm(3, 0, d)] + le_i32(c);
        assert(x86_register_head(d, c, coef) == mov);
        lemma_step_imm(0xC7, 0, d, c, regs);
        lemma_run_cons(mov, rest, regs, regs.update(d as int, wrap(c as int)));
        assert(c + coef * x == c) by (nonlinear_arith)
            requires coef == 0;
    } else {
        let mul = if coef != 1 {
            seq![0x48u8, 0x69u8, spec_modrm(3, d, d)] + le_i32(coef)
        } else {
            seq![]
        };
        let add = if c != 0 {
            seq![0x48u8, 0x81u8, spec_modrm(3, 0, d)] + le_i32(c)
        } else {
            seq![]
        };
        assert(x86_register_head(d, c, coef) == mul + add);
        assert(x86_register_head(d, c, coef) + rest =~= mul + (add + rest));
        let r1 = if coef != 1 {
            regs.update(d as int, wrap(x * coef))
        } else {
            regs
        };
        assert(x86_run(mul + (add + rest), regs) == x86_run(add + rest, r1)) by {
            if coef != 1 {
                lemma_step_imm(0x69, d, d, coef, regs);
                lemma_run_cons(mul, add + rest, regs, r1);
            } else {
                assert(mul + (add + rest) =~= add + rest);
            }
        }
        lemma_wrap_in_range(x * coef);
        assert(r1.len() == 8 && 0 <= r1[d as int] < 0x1_0000_0000_0000_0000);
        assert(c + coef * x == x * coef + c) by (nonlinear_arith);
        if c != 0 {
            lemma_step_imm(0x81, 0, d, c, r1);
            lemma_run_cons(add, rest, r1, r1.update(d as int, wrap(r1[d as int] + c)));
            if coef != 1 {
                lemma_wrap_add(x * coef, c as int);
                assert(r1.update(d as int, wrap(r1[d as int] + c)) =~= goal);
            } else {
                assert(x * coef == x) by (nonlinear_arith)
                    requires coef == 1;
                assert(r1.update(d as int, wrap(r1[d as int] + c)) =~= goal);
            }
        } else {
            assert(add + rest =~= rest);
            if coef == 1 {
                assert(x * coef == x) by (nonlinear_arith)
                    requires coef == 1;
                lemma_keep(regs, d as int);
                assert(r1 == goal);
            } else {
                assert(r1 =~= goal);
            }
        }
    }
}

/// Running the code that loads register `d` with a linear form sets `d` to the form's value
/// modulo 2^64, taken over the registers' values before it, and leaves every other register
/// as it was. (For registers 0 to 7, which the code addresses without a REX.B prefix, and
/// forms whose coefficients beyond them are 0, as x86-64 expressions' are.)
pub proof fn lemma_x86_register_code_runs(d: u8, v: Linear, regs: Seq<int>)
    requires
        d < 8,
        v.1.len() == 32,
        forall|i: int| 8 <= i < 32 ==> #[trigger] v.1[i] == 0,
        regs.len() == 8,
        forall|i: int| 0 <= i < 8 ==> 0 <= #[trigger] regs[i] < 0x1_0000_0000_0000_0000,
    ensures
        x86_run(x86_register_code(d, v), regs) == Some(regs.update(d as int, wrap(value_of(v, regs)))),
{
    let k = v.1;
    let c = v.0;
    let x = regs[d as int];
    let terms = x86_register_terms(d, k, 32);
    assert(x86_register_code(d, v) =~= x86_register_head(d, c, k[d as int]) + (terms + seq![]));
    lemma_run_head(d, c, k[d as int], terms + seq![], regs);
    let r1 = regs.update(d as int, wrap(c + k[d as int] * x));
    lemma_wrap_in_range(c + k[d as int] * x);
    lemma_run_terms(d, k, 32, seq![], r1);
    lemma_dot_except_update(k, regs, 32, d as int, wrap(c + k[d as int] * x));
    lemma_wrap_add(c + k[d as int] * x, dot_except(k, regs, 32, d as int));
    lemma_dot_split(k, regs, 32, d as int);
    reveal_with_fuel(x86_run, 1);
    assert(r1.update(d as int, wrap(r1[d as int] + dot_except(k, r1, 32, d as int))) =~= regs.update(
        d as int,
        wrap(value_of(v, regs)),
    ));
}

/// On x86-64, the code that `assemble_register` gives for register `d` (0 to 7) and an
/// expression sets `d`, modulo 2^64, to the expression's linear form evaluated over the
/// registers as they were, which is the expression's own value wherever it has one (see
/// [`eval_expression`]), and leaves every other register as it was.
pub proof fn lemma_x86_register_load(isa: &Isa, d: u8, s: Seq<char>, regs: Seq<int>)
    requires
        is_x86_64(isa),
        d < 8,
        spec_parse_expression(isa, s) is Some,
        regs.len() == 8,
        forall|i: int| 0 <= i < 8 ==> 0 <= #[trigger] regs[i] < 0x1_0000_0000_0000_0000,
    ensures
        x86_run(x86_register_code(d, spec_parse_expression(isa, s)->0), regs) == Some(
            regs.update(d as int, wrap(value_of(spec_parse_expression(isa, s)->0, regs))),
        ),
        eval_expression(isa, s, regs) matches Some(n) ==> x86_run(
            x86_register_code(d, spec_parse_expression(isa, s)->0),
            regs,
        ) == Some(regs.update(d as int, wrap(n))),
{
    lemma_x86_parse_low_registers(isa, s);
    lemma_x86_register_code_runs(d, spec_parse_expression(isa, s)->0, regs);
    lemma_parse_evaluates(isa, s, regs);
}

/// The signed value of a byte.
pub open spec fn signed8(b: u8) -> int {
    if b >= 128 {
        b - 256
    } else {
        b as int
    }
}

/// The memory operand of an x86-64 instruction with a two-byte opcode, as the processor reads
/// it: the ModR/M byte's register field, the base register (through a SIB byte `0x24` where
/// the ModR/M names one), and the displacement, none, a sign-extended byte or a 32-bit
/// number by the mode; with the length of the whole. `None` for a register operand, for
/// `[rip + disp32]`, or where bytes are missing.
pub open spec fn x86_memory_operand(code: Seq<u8>) -> Option<(u8, u8, int, nat)> {
    if code.len() < 3 {
        None
    } else {
        let m = code[2];
        let mode = m >> 6u8;
        let reg = (m >> 3u8) & 7;
        let rm = m & 7;
        let at: int = if rm == 4 { 4 } else { 3 };
        if mode == 3 || (mode == 0 && rm == 5) || (rm == 4 && (code.len() < 4 || code[3] != 0x24)) {
            None
        } else if mode == 0 {
            Some((reg, rm, 0, at as nat))
        } else if mode == 1 {
            if code.len() < at + 1 {
                None
            } else {
                Some((reg, rm, signed8(code[at]), (at + 1) as nat))
            }
        } else {
            if code.len() < at + 4 {
                None
            } else {
                Some((reg, rm, imm32(code, at), (at + 4) as nat))
            }
        }
    }
}

/// The encoded memory operation reads back as the register, the base and the displacement it
/// was made of, the whole code being that operand (for registers 0 to 7).
pub proof fn lemma_x86_memory_code_decodes(op: Seq<u8>, register: u8, base: u8, displacement: i32)
    requires
        op.len() == 2,
        register < 8,
        base < 8,
    ensures
        x86_memory_operand(x86_memory_code(op, register, base, displacement)) == Some(
            (register, base, displacement as int, x86_memory_code(op, register, base, displacement).len()),
        ),
{
    let mode = x86_memory_mode(base, displacement);
    lemma_modrm_fields(mode, register, base);
    let m = spec_modrm(mode, register, base);
    let sib: Seq<u8> = if base == 4 { seq![0x24u8] } else { seq![] };
    let head = op + seq![m] + sib;
    let code = x86_memory_code(op, register, base, displacement);
    assert(code[2] == m);
    if base == 4 {
        assert(code[3] == 0x24);
    }
    if mode == 1 {
        let b = (displacement as i8) as u8;
        assert(code[head.len() as int] == b);
        assert((b >= 128 ==> b as i32 - 256 == displacement) && (b < 128 ==> b as i32 == displacement)) by (bit_vector)
            requires
                b == (displacement as i8) as u8,
                -128 <= displacement <= 127,
        ;
    } else if mode == 2 {
        assert(code =~= head + le_i32(displacement));
        lemma_imm(head, displacement);
    }
}

/// On x86-64, `assemble_memory_operation` gives code whose memory operand reads back as the
/// register it was given, the base register that the operand names and the operand's signed
/// displacement: the address it uses is the base plus that displacement.
pub proof fn lemma_x86_memory_operation(isa: &Isa, op: Seq<u8>, register: u8, memory: Seq<char>)
    requires
        is_x86_64(isa),
        memory_ok(isa, memory),
        op.len() == 2,
        register < 8,
    ensures
        ({
            let code = x86_memory_code(
                op,
                register,
                isa.spec_reg(memory_base(memory))->0,
                memory_displacement(memory),
            );
            x86_memory_operand(code) == Some(
                (
                    register,
                    isa.spec_reg(memory_base(memory))->0,
                    memory_displacement(memory) as int,
                    code.len(),
                ),
            )
        }),
{
    assert(isa.spec_reg(memory_base(memory))->0 < 8) by {
        reveal_with_fuel(find_reg, 9);
    }
    lemma_x86_memory_code_decodes(
        op,
        register,
        isa.spec_reg(memory_base(memory))->0,
        memory_displacement(memory),
    );
}

/// Whether the x86-64 condition `cc` (0 to 15) holds on the flags `(sf, zf, cf, of)` of a
/// comparison and the parity flag `pf`: O, B, E, BE, S, P, L and LE for the even codes, each
/// odd code the opposite of the code before it. (The carry flag is a borrow: set where the
/// first value is below the second, taken unsigned.)
pub open spec fn x86_condition_holds(cc: u8, f: (bool, bool, bool, bool), pf: bool) -> bool {
    let (sf, zf, nb, of) = f;
    let cf = !nb;
    let base = if cc / 2 == 0 {
        of
    } else if cc / 2 == 1 {
        cf
    } else if cc / 2 == 2 {
        zf
    } else if cc / 2 == 3 {
        cf || zf
    } else if cc / 2 == 4 {
        sf
    } else if cc / 2 == 5 {
        pf
    } else if cc / 2 == 6 {
        sf != of
    } else {
        zf || sf != of
    };
    if cc % 2 == 1 {
        !base
    } else {
        base
    }
}

proof fn lemma_x86_jump_byte(i: int)
    requires
        0 <= i < 6,
    ensures
        x86_condition_code(i) & 0xF0 == 0x80,
        x86_condition_code(i) & 0xF == x86_condition_code(i) - 0x80,
{
    let op = x86_condition_code(i);
    assert(0x84 <= op <= 0x8F);
    assert(op & 0xF0 == 0x80 && op & 0xF == op - 0x80) by (bit_vector)
        requires 0x84 <= op <= 0x8F;
}

proof fn lemma_x86_condition_meaning(i: int, a: int, b: int, pf: bool)
    requires
        0 <= i < 6,
        i64::MIN <= a <= i64::MAX,
        i64::MIN <= b <= i64::MAX,
    ensures
        x86_condition_holds((x86_condition_code(i) - 0x80) as u8, compare_flags(a, b), pf)
            == comparison_holds(operator_text(i), a, b),
{
    lemma_compare_flags(a, b);
    lemma_operator_texts();
}

/// On x86-64 the compare of a condition is `cmp` of the left register with the right register
/// (`0x39`, the left one in the ModR/M's r/m field) or with the right number (`0x81 /7` and
/// that number as a 32-bit immediate), and the jump is a `jcc` whose condition holds on the
/// flags of comparing any two values `a` and `b` exactly when the condition's operator holds
/// of `a` and `b` (as signed numbers), whatever the parity flag.
pub proof fn lemma_x86_compare(isa: &Isa, condition: Seq<char>, a: int, b: int, pf: bool)
    requires
        is_x86_64(isa),
        condition_ok(isa, condition, true),
        i64::MIN <= a <= i64::MAX,
        i64::MIN <= b <= i64::MAX,
    ensures
        ({
            let i = condition_operator(condition)->0;
            let r = condition_sides(condition, i).1;
            let left = spec_register_operand(isa, condition_sides(condition, i).0)->0;
            let c = x86_compare_code(isa, condition).0;
            let j = x86_compare_code(isa, condition).1;
            &&& j.len() == 2 && j[0] == 0x0F && j[1] & 0xF0 == 0x80
            &&& x86_condition_holds(j[1] & 0xF, compare_flags(a, b), pf) == comparison_holds(
                operator_text(i),
                a,
                b,
            )
            &&& c.len() >= 3 && c[0] == 0x48 && c[2] >> 6u8 == 3 && c[2] & 7 == left
            &&& spec_register_operand(isa, r) matches Some(m) ==> c.len() == 3 && c[1] == 0x39 && (
            c[2] >> 3u8) & 7 == m
            &&& spec_register_operand(isa, r) is None ==> c.len() == 7 && c[1] == 0x81 && (c[2]
                >> 3u8) & 7 == 7 && imm32(c, 3) == parse_i32(trim(r))->0
        }),
{
    let i = condition_operator(condition)->0;
    lemma_operator_is_first(condition, i);
    let l = condition_sides(condition, i).0;
    let r = condition_sides(condition, i).1;
    let left = spec_register_operand(isa, l)->0;
    assert(left < 8) by {
        reveal_with_fuel(find_reg, 9);
    }
    lemma_x86_jump_byte(i);
    lemma_x86_condition_meaning(i, a, b, pf);
    let c = x86_compare_code(isa, condition).0;
    match spec_register_operand(isa, r) {
        Some(m) => {
            assert(m < 8) by {
                reveal_with_fuel(find_reg, 9);
            }
            lemma_modrm_fields(3, m, left);
            assert(c[2] == spec_modrm(3, m, left));
        },
        None => {
            lemma_modrm_fields(3, 7, left);
            let head = seq![0x48u8, 0x81u8, spec_modrm(3, 7, left)];
            assert(c =~= head + le_i32(parse_i32(trim(r))->0));
            lemma_imm(head, parse_i32(trim(r))->0);
        },
    }
}

} // verus!
