//! Expressions and instruction encoders.
//!
//! An expression is a sum of integer constants and registers (`|r1|`), built with `+ - * /`
//! and parentheses. It denotes a linear form: a constant and one coefficient for each of the
//! 32 register numbers.
use vstd::prelude::*;

pub mod arm;
use crate::common::{le_i32, le_i32_bytes, le_i64, le_i64_bytes, le_u32, modrm, spec_modrm, ADD, SUB};
use vstd::utf8::{encode_scalar, encode_utf8};
use crate::target::{find_reg, is_x86_64, Arch, Isa};
use crate::text::{
    char_is_ascii_whitespace, char_is_digit, find_char, index_of_from, is_ascii_whitespace,
    find_either, find_str, first_of, is_digit, lemma_index_of_from, parse_i32, parse_i32_range,
    remove_char, to_chars, trim, trim_range, without_char, find_sub, Strip, encode_char,
    parse_i64, parse_i64_range, split_words, views, words, trim_end_by, trim_end_index, all_digits,
    digits_value,
};

verus! {

/// A linear form: a constant and the coefficients of the 32 registers.
pub type Linear = (i32, Seq<i32>);

/// The value of a linear form.
pub open spec fn linear_of(v: (i32, [i32; 32])) -> Linear {
    (v.0, v.1@)
}

pub open spec fn zero_regs() -> Seq<i32> {
    Seq::new(32, |i: int| 0i32)
}

/// The coefficients of register `r` alone.
pub open spec fn unit_regs(r: int) -> Seq<i32> {
    zero_regs().update(r, 1i32)
}

/// How many characters of `s` from `pos` on are ASCII whitespace.
pub open spec fn ws_count(s: Seq<char>, pos: int) -> nat
    decreases s.len() - pos,
{
    if 0 <= pos < s.len() && is_ascii_whitespace(s[pos]) {
        1 + ws_count(s, pos + 1)
    } else {
        0
    }
}

/// How many characters of `s` from `pos` on are decimal digits.
pub open spec fn digit_count(s: Seq<char>, pos: int) -> nat
    decreases s.len() - pos,
{
    if 0 <= pos < s.len() && is_digit(s[pos]) {
        1 + digit_count(s, pos + 1)
    } else {
        0
    }
}

/// What is left of `s` after `pos`, or nothing.
pub open spec fn rest_len(s: Seq<char>, pos: int) -> nat {
    if pos <= s.len() {
        (s.len() - pos) as nat
    } else {
        0
    }
}

/// The binding strength of an operator character (0: not an operator).
pub open spec fn precedence(op: char) -> int {
    if op == '+' || op == '-' {
        1
    } else if op == '*' || op == '/' {
        2
    } else {
        0
    }
}

/// Whether `l[i] + r[i] * sign` is computed without overflow for every register.
pub open spec fn add_ok(l: Seq<i32>, r: Seq<i32>, sign: i32) -> bool {
    forall|i: int|
        0 <= i < 32 ==> (#[trigger] r[i]).checked_mul(sign) is Some && l[i].checked_add(
            r[i].checked_mul(sign)->0,
        ) is Some
}

/// `l[i] + r[i] * sign` for every register.
pub open spec fn add_regs(l: Seq<i32>, r: Seq<i32>, sign: i32) -> Seq<i32> {
    Seq::new(32, |i: int| l[i].checked_add(r[i].checked_mul(sign)->0)->0)
}

/// Whether `regs[i] * c` is computed without overflow for every register.
pub open spec fn mul_ok(regs: Seq<i32>, c: i32) -> bool {
    forall|i: int| 0 <= i < 32 ==> (#[trigger] regs[i]).checked_mul(c) is Some
}

/// `regs[i] * c` for every register.
pub open spec fn mul_regs(regs: Seq<i32>, c: i32) -> Seq<i32> {
    Seq::new(32, |i: int| regs[i].checked_mul(c)->0)
}

/// Whether `regs[i] / d` is computed without overflow or division by zero for every register.
pub open spec fn div_ok(regs: Seq<i32>, d: i32) -> bool {
    forall|i: int| 0 <= i < 32 ==> (#[trigger] regs[i]).checked_div(d) is Some
}

/// `regs[i] / d`, rounded toward zero, for every register.
pub open spec fn div_regs(regs: Seq<i32>, d: i32) -> Seq<i32> {
    Seq::new(32, |i: int| regs[i].checked_div(d)->0)
}

/// `l op r` on linear forms, computed in `i32`; `None` where an operation overflows or divides
/// by zero. `+` and `-` act on every part; `*` scales the side that has registers by the
/// constant of the other side (the right one if neither has registers); `/` divides every part
/// of the left side by the constant of the right side, rounding toward zero.
pub open spec fn apply_op(op: char, l: Linear, r: Linear) -> Option<Linear> {
    if op == '+' || op == '-' {
        let sign: i32 = if op == '+' {
            1i32
        } else {
            -1i32
        };
        if r.0.checked_mul(sign) is Some && l.0.checked_add(r.0.checked_mul(sign)->0) is Some
            && add_ok(l.1, r.1, sign) {
            Some((l.0.checked_add(r.0.checked_mul(sign)->0)->0, add_regs(l.1, r.1, sign)))
        } else {
            None
        }
    } else if op == '*' {
        let c = if l.1 == zero_regs() {
            l.0
        } else {
            r.0
        };
        let regs = if l.1 == zero_regs() {
            r.1
        } else {
            l.1
        };
        if l.0.checked_mul(r.0) is Some && mul_ok(regs, c) {
            Some((l.0.checked_mul(r.0)->0, mul_regs(regs, c)))
        } else {
            None
        }
    } else {
        if l.0.checked_div(r.0) is Some && div_ok(l.1, r.0) {
            Some((l.0.checked_div(r.0)->0, div_regs(l.1, r.0)))
        } else {
            None
        }
    }
}

/// Subtracting what was added gives the left side back: where `l + r` is computed, so is
/// `(l + r) - r`, and it equals `l`. (Not where a part of `r` is `i32::MIN`, whose negation
/// overflows.)
pub proof fn lemma_sub_undoes_add(l: Linear, r: Linear)
    requires
        l.1.len() == 32,
        r.1.len() == 32,
        apply_op('+', l, r) is Some,
        r.0 != i32::MIN,
        forall|i: int| 0 <= i < 32 ==> #[trigger] r.1[i] != i32::MIN,
    ensures
        apply_op('-', apply_op('+', l, r)->0, r) == Some(l),
{
    let m = apply_op('+', l, r)->0;
    assert(add_ok(m.1, r.1, -1i32)) by {
        assert forall|i: int| 0 <= i < 32 implies (#[trigger] r.1[i]).checked_mul(-1i32) is Some
            && m.1[i].checked_add(r.1[i].checked_mul(-1i32)->0) is Some by {
            assert(r.1[i].checked_mul(1i32) is Some && l.1[i].checked_add(
                r.1[i].checked_mul(1i32)->0,
            ) is Some);
        }
    }
    assert(add_regs(m.1, r.1, -1i32) =~= l.1) by {
        assert forall|i: int| 0 <= i < 32 implies #[trigger] add_regs(m.1, r.1, -1i32)[i]
            == l.1[i] by {
            assert(r.1[i].checked_mul(1i32) is Some && l.1[i].checked_add(
                r.1[i].checked_mul(1i32)->0,
            ) is Some);
        }
    }
}

/// Addition does not depend on the order of its sides.
pub proof fn lemma_add_commutes(l: Linear, r: Linear)
    requires
        l.1.len() == 32,
        r.1.len() == 32,
    ensures
        apply_op('+', l, r) == apply_op('+', r, l),
{
    assert(add_ok(l.1, r.1, 1i32) == add_ok(r.1, l.1, 1i32)) by {
        if add_ok(l.1, r.1, 1i32) {
            assert(forall|i: int|
                0 <= i < 32 ==> (#[trigger] l.1[i]).checked_mul(1i32) is Some && r.1[i].checked_add(
                    l.1[i].checked_mul(1i32)->0,
                ) is Some);
        }
        if add_ok(r.1, l.1, 1i32) {
            assert(forall|i: int|
                0 <= i < 32 ==> (#[trigger] r.1[i]).checked_mul(1i32) is Some && l.1[i].checked_add(
                    r.1[i].checked_mul(1i32)->0,
                ) is Some);
        }
    }
}

/// How many bytes `c` takes in UTF-8.
pub open spec fn utf8_width(c: char) -> nat {
    if (c as u32) < 0x80 {
        1
    } else if (c as u32) < 0x800 {
        2
    } else if (c as u32) < 0x10000 {
        3
    } else {
        4
    }
}

/// An expression at `pos`, made of operators that bind at least as strongly as `min`:
/// its linear form, how many characters it spans, and how many bytes of the character after
/// those it ends inside (the text is read byte by byte in UTF-8: see [`parse_operand_at`]).
/// `None` where the text does not parse or the arithmetic fails.
pub open spec fn parse_expr_at(isa: &Isa, s: Seq<char>, pos: int, min: int) -> Option<
    (Linear, nat, nat),
>
    decreases rest_len(s, pos), 2nat,
{
    let w = ws_count(s, pos);
    match parse_operand_at(isa, s, pos + w) {
        None => None,
        Some((left, c, o)) => match parse_tail_at(isa, s, left, pos + w + c, o, min) {
            None => None,
            Some((v, c2, o2)) => Some((v, w + c + c2, o2)),
        },
    }
}

/// One operand at `pos`: a parenthesized expression, a register between `|`s, or a decimal
/// number. After a parenthesized expression one byte is skipped whatever it is: where that
/// byte is the first of a character of several bytes, the operand ends inside that character.
pub open spec fn parse_operand_at(isa: &Isa, s: Seq<char>, pos: int) -> Option<
    (Linear, nat, nat),
>
    decreases rest_len(s, pos), 1nat,
{
    if pos < 0 || pos >= s.len() {
        None
    } else if s[pos] == '(' {
        match parse_expr_at(isa, s, pos + 1, 0) {
            None => None,
            Some((v, c, o)) => {
                let e = pos + 1 + c;
                if e < s.len() && o + 1 < utf8_width(s[e]) {
                    Some((v, c + 1, o + 1))
                } else {
                    Some((v, c + 2, 0))
                }
            },
        }
    } else if s[pos] == '|' {
        match index_of_from(s, pos + 1, '|') {
            None => None,
            Some(j) => match isa.spec_reg(trim(s.subrange(pos + 1, j))) {
                Some(r) => if r < 32 {
                    Some(((0i32, unit_regs(r as int)), (j - pos + 1) as nat, 0))
                } else {
                    None
                },
                None => None,
            },
        }
    } else {
        let d = digit_count(s, pos);
        match parse_i32(s.subrange(pos, pos + d)) {
            Some(v) => Some(((v, zero_regs()), d, 0)),
            None => None,
        }
    }
}

/// The operators and operands after `left`, from `pos` (and `off` bytes into the character
/// there) on, that bind at least as strongly as `min`, applied left to right. Inside a
/// character there is neither whitespace nor an operator.
pub open spec fn parse_tail_at(isa: &Isa, s: Seq<char>, left: Linear, pos: int, off: nat, min: int) -> Option<
    (Linear, nat, nat),
>
    decreases rest_len(s, pos), 0nat,
{
    if off > 0 {
        Some((left, 0, off))
    } else {
        let w = ws_count(s, pos);
        let p = pos + w;
        if p < 0 || p >= s.len() {
            Some((left, w, 0))
        } else {
            let op = s[p];
            let prec = precedence(op);
            if prec == 0 || prec < min {
                Some((left, w, 0))
            } else {
                match parse_expr_at(isa, s, p + 1, prec + 1) {
                    None => None,
                    Some((right, c, o)) => match apply_op(op, left, right) {
                        None => None,
                        Some(v) => match parse_tail_at(isa, s, v, p + 1 + c, o, min) {
                            None => None,
                            Some((v2, c2, o2)) => Some((v2, w + 1 + c + c2, o2)),
                        },
                    },
                }
            }
        }
    }
}

/// Whether two targets give every name the same register.
pub open spec fn same_registers(a: &Isa, b: &Isa) -> bool {
    forall|n: Seq<char>| #[trigger] a.spec_reg(n) == b.spec_reg(n)
}

proof fn lemma_expr_same_registers(a: &Isa, b: &Isa, s: Seq<char>, pos: int, min: int)
    requires
        same_registers(a, b),
    ensures
        parse_expr_at(a, s, pos, min) == parse_expr_at(b, s, pos, min),
    decreases rest_len(s, pos), 2nat,
{
    let w = ws_count(s, pos);
    lemma_operand_same_registers(a, b, s, pos + w);
    match parse_operand_at(a, s, pos + w) {
        None => {},
        Some((left, c, o)) => lemma_tail_same_registers(a, b, s, left, pos + w + c, o, min),
    }
}

proof fn lemma_operand_same_registers(a: &Isa, b: &Isa, s: Seq<char>, pos: int)
    requires
        same_registers(a, b),
    ensures
        parse_operand_at(a, s, pos) == parse_operand_at(b, s, pos),
    decreases rest_len(s, pos), 1nat,
{
    if 0 <= pos < s.len() && s[pos] == '(' {
        lemma_expr_same_registers(a, b, s, pos + 1, 0);
    } else if 0 <= pos < s.len() && s[pos] == '|' {
        match index_of_from(s, pos + 1, '|') {
            None => {},
            Some(j) => assert(a.spec_reg(trim(s.subrange(pos + 1, j))) == b.spec_reg(
                trim(s.subrange(pos + 1, j)),
            )),
        }
    }
}

proof fn lemma_tail_same_registers(
    a: &Isa,
    b: &Isa,
    s: Seq<char>,
    left: Linear,
    pos: int,
    off: nat,
    min: int,
)
    requires
        same_registers(a, b),
    ensures
        parse_tail_at(a, s, left, pos, off, min) == parse_tail_at(b, s, left, pos, off, min),
    decreases rest_len(s, pos), 0nat,
{
    let w = ws_count(s, pos);
    let p = pos + w;
    if off == 0 && 0 <= p < s.len() {
        let op = s[p];
        let prec = precedence(op);
        if prec != 0 && prec >= min {
            lemma_expr_same_registers(a, b, s, p + 1, prec + 1);
            match parse_expr_at(a, s, p + 1, prec + 1) {
                None => {},
                Some((right, c, o)) => match apply_op(op, left, right) {
                    None => {},
                    Some(v) => lemma_tail_same_registers(a, b, s, v, p + 1 + c, o, min),
                },
            }
        }
    }
}

/// An expression means the same on two targets that give every name the same register.
pub proof fn lemma_parse_same_registers(a: &Isa, b: &Isa, s: Seq<char>)
    requires
        same_registers(a, b),
    ensures
        spec_parse_expression(a, s) == spec_parse_expression(b, s),
{
    lemma_expr_same_registers(a, b, s, 0, 0);
}

/// Whether `i` is the number of a register that some name denotes on `isa`.
pub open spec fn is_register_number(isa: &Isa, i: int) -> bool {
    exists|n: Seq<char>| #[trigger] isa.spec_reg(n) == Some(i as u8)
}

/// Whether `v` has a coefficient for each of the 32 register numbers, and every coefficient
/// at a number that is no register of `isa` is 0.
pub open spec fn only_registers(isa: &Isa, v: Linear) -> bool {
    &&& v.1.len() == 32
    &&& forall|i: int| 0 <= i < 32 && !is_register_number(isa, i) ==> #[trigger] v.1[i] == 0
}

proof fn lemma_apply_only_registers(isa: &Isa, op: char, l: Linear, r: Linear)
    requires
        only_registers(isa, l),
        only_registers(isa, r),
        apply_op(op, l, r) is Some,
    ensures
        only_registers(isa, apply_op(op, l, r)->0),
{
    let m = apply_op(op, l, r)->0;
    assert forall|i: int| 0 <= i < 32 && !is_register_number(isa, i) implies #[trigger] m.1[i]
        == 0 by {
        assert(l.1[i] == 0 && r.1[i] == 0);
    }
}

proof fn lemma_expr_only_registers(isa: &Isa, s: Seq<char>, pos: int, min: int)
    ensures
        parse_expr_at(isa, s, pos, min) matches Some((v, _, _)) ==> only_registers(isa, v),
    decreases rest_len(s, pos), 2nat,
{
    let w = ws_count(s, pos);
    lemma_operand_only_registers(isa, s, pos + w);
    match parse_operand_at(isa, s, pos + w) {
        None => {},
        Some((left, c, o)) => lemma_tail_only_registers(isa, s, left, pos + w + c, o, min),
    }
}

proof fn lemma_operand_only_registers(isa: &Isa, s: Seq<char>, pos: int)
    ensures
        parse_operand_at(isa, s, pos) matches Some((v, _, _)) ==> only_registers(isa, v),
    decreases rest_len(s, pos), 1nat,
{
    if 0 <= pos < s.len() && s[pos] == '(' {
        lemma_expr_only_registers(isa, s, pos + 1, 0);
    } else if 0 <= pos < s.len() && s[pos] == '|' {
        match index_of_from(s, pos + 1, '|') {
            None => {},
            Some(j) => {
                let n = trim(s.subrange(pos + 1, j));
                match isa.spec_reg(n) {
                    Some(r) => if r < 32 {
                        assert(is_register_number(isa, r as int));
                        assert forall|i: int|
                            0 <= i < 32 && !is_register_number(isa, i) implies #[trigger] unit_regs(
                            r as int,
                        )[i] == 0 by {
                            if i == r as int {
                                assert(isa.spec_reg(n) == Some(i as u8));
                            }
                            assert(unit_regs(r as int)[i] == zero_regs()[i]);
                        }
                    },
                    None => {},
                }
            },
        }
    }
}

proof fn lemma_tail_only_registers(
    isa: &Isa,
    s: Seq<char>,
    left: Linear,
    pos: int,
    off: nat,
    min: int,
)
    requires
        only_registers(isa, left),
    ensures
        parse_tail_at(isa, s, left, pos, off, min) matches Some((v, _, _)) ==> only_registers(isa, v),
    decreases rest_len(s, pos), 0nat,
{
    let w = ws_count(s, pos);
    let p = pos + w;
    if off == 0 && 0 <= p < s.len() {
        let op = s[p];
        let prec = precedence(op);
        if prec != 0 && prec >= min {
            lemma_expr_only_registers(isa, s, p + 1, prec + 1);
            match parse_expr_at(isa, s, p + 1, prec + 1) {
                None => {},
                Some((right, c, o)) => match apply_op(op, left, right) {
                    None => {},
                    Some(v) => {
                        lemma_apply_only_registers(isa, op, left, right);
                        lemma_tail_only_registers(isa, s, v, p + 1 + c, o, min);
                    },
                },
            }
        }
    }
}

/// An expression gives no coefficient to a number that names no register of the target.
pub proof fn lemma_parse_only_registers(isa: &Isa, s: Seq<char>)
    ensures
        spec_parse_expression(isa, s) matches Some(v) ==> only_registers(isa, v),
{
    lemma_expr_only_registers(isa, s, 0, 0);
}

/// On x86-64 an expression gives no coefficient to the numbers 8 to 31.
pub proof fn lemma_x86_parse_low_registers(isa: &Isa, s: Seq<char>)
    requires
        is_x86_64(isa),
    ensures
        spec_parse_expression(isa, s) matches Some(v) ==> v.1.len() == 32 && forall|i: int|
            8 <= i < 32 ==> #[trigger] v.1[i] == 0,
{
    lemma_parse_only_registers(isa, s);
    assert forall|i: int| 8 <= i < 32 implies !is_register_number(isa, i) by {
        assert forall|n: Seq<char>| #[trigger] isa.spec_reg(n) != Some(i as u8) by {
            reveal_with_fuel(find_reg, 9);
        }
    }
}

/// `k[0] * x[0] + ... + k[n - 1] * x[n - 1]`.
pub open spec fn dot(k: Seq<i32>, x: Seq<int>, n: nat) -> int
    decreases n,
{
    if n == 0 {
        0
    } else {
        dot(k, x, (n - 1) as nat) + k[n - 1] * x[n - 1]
    }
}

/// The value of the linear form `v` when register `i` holds `x[i]`.
pub open spec fn value_of(v: Linear, x: Seq<int>) -> int {
    v.0 + dot(v.1, x, 32)
}

/// The integer value of `l op r`, where `l` and `r` are values and whether they mention a
/// register: `+`, `-` and `*` as in arithmetic; `None` for a product of two values that both
/// mention registers, and for `/`.
pub open spec fn eval_op(op: char, l: (int, bool), r: (int, bool)) -> Option<(int, bool)> {
    if op == '+' {
        Some((l.0 + r.0, l.1 || r.1))
    } else if op == '-' {
        Some((l.0 - r.0, l.1 || r.1))
    } else if op == '*' && !(l.1 && r.1) {
        Some((l.0 * r.0, l.1 || r.1))
    } else {
        None
    }
}

/// The value of the expression at `pos` when register `i` holds `x[i]`, read as the parser
/// reads it, with `*` binding more strongly than `+` and `-` and each of them to the left:
/// the value, whether it mentions a register, how many characters it spans and how many bytes
/// into the next it ends.
pub open spec fn eval_expr_at(isa: &Isa, s: Seq<char>, pos: int, min: int, x: Seq<int>) -> Option<
    (int, bool, nat, nat),
>
    decreases rest_len(s, pos), 2nat,
{
    let w = ws_count(s, pos);
    match eval_operand_at(isa, s, pos + w, x) {
        None => None,
        Some((lv, lf, c, o)) => match eval_tail_at(isa, s, (lv, lf), pos + w + c, o, min, x) {
            None => None,
            Some((v, f, c2, o2)) => Some((v, f, w + c + c2, o2)),
        },
    }
}

/// The value of the operand at `pos` (see [`eval_expr_at`]).
pub open spec fn eval_operand_at(isa: &Isa, s: Seq<char>, pos: int, x: Seq<int>) -> Option<
    (int, bool, nat, nat),
>
    decreases rest_len(s, pos), 1nat,
{
    if pos < 0 || pos >= s.len() {
        None
    } else if s[pos] == '(' {
        match eval_expr_at(isa, s, pos + 1, 0, x) {
            None => None,
            Some((v, f, c, o)) => {
                let e = pos + 1 + c;
                if e < s.len() && o + 1 < utf8_width(s[e]) {
                    Some((v, f, c + 1, o + 1))
                } else {
                    Some((v, f, c + 2, 0))
                }
            },
        }
    } else if s[pos] == '|' {
        match index_of_from(s, pos + 1, '|') {
            None => None,
            Some(j) => match isa.spec_reg(trim(s.subrange(pos + 1, j))) {
                Some(r) => if r < 32 {
                    Some((x[r as int], true, (j - pos + 1) as nat, 0))
                } else {
                    None
                },
                None => None,
            },
        }
    } else {
        let d = digit_count(s, pos);
        match parse_i32(s.subrange(pos, pos + d)) {
            Some(v) => Some((v as int, false, d, 0)),
            None => None,
        }
    }
}

/// The value of the operators and operands after `left` (see [`eval_expr_at`]).
pub open spec fn eval_tail_at(
    isa: &Isa,
    s: Seq<char>,
    left: (int, bool),
    pos: int,
    off: nat,
    min: int,
    x: Seq<int>,
) -> Option<(int, bool, nat, nat)>
    decreases rest_len(s, pos), 0nat,
{
    if off > 0 {
        Some((left.0, left.1, 0, off))
    } else {
        let w = ws_count(s, pos);
        let p = pos + w;
        if p < 0 || p >= s.len() {
            Some((left.0, left.1, w, 0))
        } else {
            let op = s[p];
            let prec = precedence(op);
            if prec == 0 || prec < min {
                Some((left.0, left.1, w, 0))
            } else {
                match eval_expr_at(isa, s, p + 1, prec + 1, x) {
                    None => None,
                    Some((rv, rf, c, o)) => match eval_op(op, left, (rv, rf)) {
                        None => None,
                        Some(v) => match eval_tail_at(isa, s, v, p + 1 + c, o, min, x) {
                            None => None,
                            Some((v2, f2, c2, o2)) => Some((v2, f2, w + 1 + c + c2, o2)),
                        },
                    },
                }
            }
        }
    }
}

/// The value of a whole expression when register `i` holds `x[i]` (see [`eval_expr_at`]).
pub open spec fn eval_expression(isa: &Isa, s: Seq<char>, x: Seq<int>) -> Option<int> {
    match eval_expr_at(isa, s, 0, 0, x) {
        Some((v, _, _, _)) => Some(v),
        None => None,
    }
}

proof fn lemma_dot_zero(x: Seq<int>, n: nat)
    requires
        n <= 32,
    ensures
        dot(zero_regs(), x, n) == 0,
    decreases n,
{
    if n > 0 {
        lemma_dot_zero(x, (n - 1) as nat);
        assert(zero_regs()[n - 1] == 0);
    }
}

proof fn lemma_dot_unit(r: int, x: Seq<int>, n: nat)
    requires
        0 <= r < 32,
        n <= 32,
    ensures
        dot(unit_regs(r), x, n) == if r < n {
            x[r]
        } else {
            0
        },
    decreases n,
{
    if n > 0 {
        lemma_dot_unit(r, x, (n - 1) as nat);
        let k = unit_regs(r)[n - 1];
        if n - 1 == r {
            assert(k == 1);
            assert(k * x[n - 1] == x[r]);
        } else {
            assert(k == zero_regs()[n - 1]);
            assert(zero_regs()[n - 1] == 0);
            assert(k * x[n - 1] == 0) by (nonlinear_arith)
                requires
                    k == 0,
            ;
        }
    }
}

proof fn lemma_dot_add(l: Seq<i32>, r: Seq<i32>, sign: i32, x: Seq<int>, n: nat)
    requires
        n <= 32,
        sign == 1 || sign == -1,
        add_ok(l, r, sign),
    ensures
        dot(add_regs(l, r, sign), x, n) == dot(l, x, n) + sign * dot(r, x, n),
    decreases n,
{
    if n > 0 {
        let i = n - 1;
        lemma_dot_add(l, r, sign, x, (n - 1) as nat);
        assert(r[i].checked_mul(sign) is Some);
        assert(add_regs(l, r, sign)[i] == l[i] + r[i] * sign);
        let (a, b, c, xi) = (l[i] as int, r[i] as int, sign as int, x[i]);
        assert((a + b * c) * xi == a * xi + c * (b * xi)) by (nonlinear_arith);
        assert(c * dot(r, x, (n - 1) as nat) + c * (b * xi) == c * (dot(r, x, (n - 1) as nat) + b
            * xi)) by (nonlinear_arith);
    }
}

proof fn lemma_dot_mul(regs: Seq<i32>, c: i32, x: Seq<int>, n: nat)
    requires
        n <= 32,
        mul_ok(regs, c),
    ensures
        dot(mul_regs(regs, c), x, n) == c * dot(regs, x, n),
    decreases n,
{
    if n > 0 {
        let i = n - 1;
        lemma_dot_mul(regs, c, x, (n - 1) as nat);
        assert(regs[i].checked_mul(c) is Some);
        assert(mul_regs(regs, c)[i] == regs[i] * c);
        let (a, k, xi, d) = (regs[i] as int, c as int, x[i], dot(regs, x, (n - 1) as nat));
        assert(k * d + (a * k) * xi == k * (d + a * xi)) by (nonlinear_arith);
    }
}

/// What `apply_op` computes on linear forms, evaluated, is what `eval_op` computes on their
/// values, where a form that mentions no register has no coefficient.
proof fn lemma_apply_evaluates(op: char, l: Linear, r: Linear, lf: bool, rf: bool, x: Seq<int>)
    requires
        l.1.len() == 32,
        r.1.len() == 32,
        !lf ==> l.1 == zero_regs(),
        !rf ==> r.1 == zero_regs(),
        apply_op(op, l, r) is Some,
        eval_op(op, (value_of(l, x), lf), (value_of(r, x), rf)) is Some,
    ensures
        eval_op(op, (value_of(l, x), lf), (value_of(r, x), rf))->0 == (
            value_of(apply_op(op, l, r)->0, x),
            lf || rf,
        ),
        !(lf || rf) ==> (apply_op(op, l, r)->0).1 == zero_regs(),
        (apply_op(op, l, r)->0).1.len() == 32,
{
    let m = apply_op(op, l, r)->0;
    if op == '+' || op == '-' {
        let sign: i32 = if op == '+' {
            1i32
        } else {
            -1i32
        };
        lemma_dot_add(l.1, r.1, sign, x, 32);
        if !(lf || rf) {
            assert(m.1 =~= zero_regs()) by {
                assert forall|i: int| 0 <= i < 32 implies m.1[i] == zero_regs()[i] by {
                    assert(l.1[i] == 0 && r.1[i] == 0);
                    assert(r.1[i].checked_mul(sign) is Some);
                }
            }
        }
    } else {
        assert(op == '*');
        let c = if l.1 == zero_regs() {
            l.0
        } else {
            r.0
        };
        let regs = if l.1 == zero_regs() {
            r.1
        } else {
            l.1
        };
        lemma_dot_mul(regs, c, x, 32);
        lemma_dot_zero(x, 32);
        let (a, b, dl, dr) = (l.0 as int, r.0 as int, dot(l.1, x, 32), dot(r.1, x, 32));
        if l.1 == zero_regs() {
            assert(a * b + a * dr == a * (b + dr)) by (nonlinear_arith);
        } else {
            assert(r.1 == zero_regs());
            assert(a * b + b * dl == (a + dl) * b) by (nonlinear_arith);
        }
        if !(lf || rf) {
            assert(m.1 =~= zero_regs()) by {
                assert forall|i: int| 0 <= i < 32 implies m.1[i] == zero_regs()[i] by {
                    assert(regs[i] == 0);
                    assert(regs[i].checked_mul(c) is Some);
                }
            }
        }
    }
}

proof fn lemma_expr_evaluates(isa: &Isa, s: Seq<char>, pos: int, min: int, x: Seq<int>)
    ensures
        parse_expr_at(isa, s, pos, min) matches Some((v, c, o)) ==> (eval_expr_at(
            isa,
            s,
            pos,
            min,
            x,
        ) matches Some((n, f, c2, o2)) ==> n == value_of(v, x) && c2 == c && o2 == o && v.1.len()
            == 32 && (!f ==> v.1 == zero_regs())),
    decreases rest_len(s, pos), 2nat,
{
    let w = ws_count(s, pos);
    lemma_operand_evaluates(isa, s, pos + w, x);
    match (parse_operand_at(isa, s, pos + w), eval_operand_at(isa, s, pos + w, x)) {
        (Some((left, c, o)), Some((lv, lf, _, _))) => lemma_tail_evaluates(
            isa,
            s,
            left,
            lf,
            pos + w + c,
            o,
            min,
            x,
        ),
        _ => {},
    }
}

proof fn lemma_operand_evaluates(isa: &Isa, s: Seq<char>, pos: int, x: Seq<int>)
    ensures
        parse_operand_at(isa, s, pos) matches Some((v, c, o)) ==> (eval_operand_at(
            isa,
            s,
            pos,
            x,
        ) matches Some((n, f, c2, o2)) ==> n == value_of(v, x) && c2 == c && o2 == o && v.1.len()
            == 32 && (!f ==> v.1 == zero_regs())),
    decreases rest_len(s, pos), 1nat,
{
    if 0 <= pos < s.len() && s[pos] == '(' {
        lemma_expr_evaluates(isa, s, pos + 1, 0, x);
    } else if 0 <= pos < s.len() && s[pos] == '|' {
        match index_of_from(s, pos + 1, '|') {
            None => {},
            Some(j) => match isa.spec_reg(trim(s.subrange(pos + 1, j))) {
                Some(r) => if r < 32 {
                    lemma_dot_unit(r as int, x, 32);
                },
                None => {},
            },
        }
    } else if 0 <= pos < s.len() {
        lemma_dot_zero(x, 32);
    }
}

proof fn lemma_tail_evaluates(
    isa: &Isa,
    s: Seq<char>,
    left: Linear,
    lf: bool,
    pos: int,
    off: nat,
    min: int,
    x: Seq<int>,
)
    requires
        left.1.len() == 32,
        !lf ==> left.1 == zero_regs(),
    ensures
        parse_tail_at(isa, s, left, pos, off, min) matches Some((v, c, o)) ==> (eval_tail_at(
            isa,
            s,
            (value_of(left, x), lf),
            pos,
            off,
            min,
            x,
        ) matches Some((n, f, c2, o2)) ==> n == value_of(v, x) && c2 == c && o2 == o && v.1.len()
            == 32 && (!f ==> v.1 == zero_regs())),
    decreases rest_len(s, pos), 0nat,
{
    let w = ws_count(s, pos);
    let p = pos + w;
    if off == 0 && 0 <= p < s.len() {
        let op = s[p];
        let prec = precedence(op);
        if prec != 0 && prec >= min {
            lemma_expr_evaluates(isa, s, p + 1, prec + 1, x);
            match (parse_expr_at(isa, s, p + 1, prec + 1), eval_expr_at(isa, s, p + 1, prec + 1, x)) {
                (Some((right, c, o)), Some((rv, rf, _, _))) => {
                    if apply_op(op, left, right) is Some && eval_op(
                        op,
                        (value_of(left, x), lf),
                        (rv, rf),
                    ) is Some {
                        lemma_apply_evaluates(op, left, right, lf, rf, x);
                        lemma_tail_evaluates(
                            isa,
                            s,
                            apply_op(op, left, right)->0,
                            lf || rf,
                            p + 1 + c,
                            o,
                            min,
                            x,
                        );
                    }
                },
                _ => {},
            }
        }
    }
}

/// The linear form of an expression evaluates like the expression: for any values `x` of
/// the registers, where the expression has a value in integer arithmetic (it holds no `/`,
/// and no product of two parts that both mention registers), that value is the form's
/// constant plus the sum of each coefficient times its register's value.
pub proof fn lemma_parse_evaluates(isa: &Isa, s: Seq<char>, x: Seq<int>)
    ensures
        spec_parse_expression(isa, s) matches Some(v) ==> (eval_expression(isa, s, x) matches Some(
            n,
        ) ==> n == value_of(v, x)),
{
    lemma_expr_evaluates(isa, s, 0, 0, x);
}

/// The linear form of a whole expression, if it parses.
pub open spec fn spec_parse_expression(isa: &Isa, s: Seq<char>) -> Option<Linear> {
    match parse_expr_at(isa, s, 0, 0) {
        Some((v, _, _)) => Some(v),
        None => None,
    }
}


/// A position of `s`, with every position past its end taken as its end: from there on,
/// nothing is read.
pub open spec fn clamp_pos(s: Seq<char>, q: int) -> int {
    if q <= s.len() {
        q
    } else {
        s.len() as int
    }
}

/// Past the end of the text, a tail is empty.
proof fn lemma_tail_past_end(isa: &Isa, s: Seq<char>, left: Linear, min: int)
    ensures
        forall|q: int|
            q >= s.len() ==> #[trigger] parse_tail_at(isa, s, left, q, 0, min) == Some(
                (left, 0nat, 0nat),
            ),
{
}

/// The first position at or after `pos` that is not ASCII whitespace (`pos` itself where it
/// is past the end).
pub fn skip_whitespace(s: &Vec<char>, pos: usize) -> (p: usize)
    ensures
        p == pos + ws_count(s@, pos as int),
        pos <= s.len() ==> p <= s.len(),
{
    if pos >= s.len() {
        return pos;
    }
    let mut p = pos;
    while p < s.len() && char_is_ascii_whitespace(s[p])
        invariant
            pos <= p <= s.len(),
            ws_count(s@, pos as int) == (p - pos) + ws_count(s@, p as int),
        decreases s.len() - p,
    {
        p += 1;
    }
    p
}

/// The first position at or after `pos` that is not a decimal digit.
fn skip_digits(s: &Vec<char>, pos: usize) -> (p: usize)
    requires
        pos <= s.len(),
    ensures
        p == pos + digit_count(s@, pos as int),
        p <= s.len(),
{
    let mut p = pos;
    while p < s.len() && char_is_digit(s[p])
        invariant
            pos <= p <= s.len(),
            digit_count(s@, pos as int) == (p - pos) + digit_count(s@, p as int),
        decreases s.len() - p,
    {
        p += 1;
    }
    p
}

/// Whether every coefficient is zero.
fn is_constant(a: &[i32; 32]) -> (b: bool)
    ensures
        b == (a@ == zero_regs()),
{
    let mut i: usize = 0;
    while i < 32
        invariant
            0 <= i <= 32,
            forall|j: int| 0 <= j < i ==> a@[j] == 0,
        decreases 32 - i,
    {
        if a[i] != 0 {
            return false;
        }
        i += 1;
    }
    assert(a@ =~= zero_regs());
    true
}

/// `l op r` (see [`apply_op`]).
fn apply(op: char, l: &(i32, [i32; 32]), r: &(i32, [i32; 32])) -> (res: Option<(i32, [i32; 32])>)
    requires
        precedence(op) != 0,
    ensures
        match apply_op(op, linear_of(*l), linear_of(*r)) {
            None => res is None,
            Some(v) => res matches Some(w) && linear_of(w) == v,
        },
{
    if op == '+' || op == '-' {
        let sign: i32 = if op == '+' {
            1
        } else {
            -1
        };
        let rc = match r.0.checked_mul(sign) {
            Some(x) => x,
            None => return None,
        };
        let c = match l.0.checked_add(rc) {
            Some(x) => x,
            None => return None,
        };
        let mut regs = [0i32; 32];
        let mut i: usize = 0;
        while i < 32
            invariant
                0 <= i <= 32,
                regs@.len() == 32,
                op == '+' || op == '-',
                sign == (if op == '+' {
                    1i32
                } else {
                    -1i32
                }),
                forall|j: int|
                    0 <= j < i ==> #[trigger] r.1@[j].checked_mul(sign) is Some && l.1@[j].checked_add(
                        r.1@[j].checked_mul(sign)->0,
                    ) is Some && regs@[j] == l.1@[j].checked_add(r.1@[j].checked_mul(sign)->0)->0,
            decreases 32 - i,
        {
            let m = match r.1[i].checked_mul(sign) {
                Some(x) => x,
                None => {
                    return None;
                },
            };
            let a = match l.1[i].checked_add(m) {
                Some(x) => x,
                None => {
                    assert(!(r.1@[i as int].checked_mul(sign) is Some && l.1@[i as int].checked_add(
                        r.1@[i as int].checked_mul(sign)->0,
                    ) is Some));
                    return None;
                },
            };
            regs[i] = a;
            i += 1;
        }
        Some((c, regs))
    } else if op == '*' {
        let left_constant = is_constant(&l.1);
        let (c, src) = if left_constant {
            (l.0, r.1)
        } else {
            (r.0, l.1)
        };
        let mut regs = [0i32; 32];
        let mut i: usize = 0;
        while i < 32
            invariant
                0 <= i <= 32,
                regs@.len() == 32,
                op == '*',
                c == (if l.1@ == zero_regs() {
                    l.0
                } else {
                    r.0
                }),
                src@ == (if l.1@ == zero_regs() {
                    r.1@
                } else {
                    l.1@
                }),
                forall|j: int|
                    0 <= j < i ==> (#[trigger] src@[j]).checked_mul(c) is Some && regs@[j]
                        == src@[j].checked_mul(c)->0,
            decreases 32 - i,
        {
            let a = match src[i].checked_mul(c) {
                Some(x) => x,
                None => {
                    return None;
                },
            };
            regs[i] = a;
            i += 1;
        }
        let k = match l.0.checked_mul(r.0) {
            Some(x) => x,
            None => return None,
        };
        Some((k, regs))
    } else {
        let mut regs = [0i32; 32];
        let mut i: usize = 0;
        while i < 32
            invariant
                0 <= i <= 32,
                regs@.len() == 32,
                op != '+' && op != '-' && op != '*',
                forall|j: int|
                    0 <= j < i ==> (#[trigger] l.1@[j]).checked_div(r.0) is Some && regs@[j]
                        == l.1@[j].checked_div(r.0)->0,
            decreases 32 - i,
        {
            let a = match l.1[i].checked_div(r.0) {
                Some(x) => x,
                None => {
                    return None;
                },
            };
            regs[i] = a;
            i += 1;
        }
        let k = match l.0.checked_div(r.0) {
            Some(x) => x,
            None => return None,
        };
        Some((k, regs))
    }
}

/// The number of bytes of `c` in UTF-8.
fn utf8_width_of(c: char) -> (n: usize)
    ensures
        n == utf8_width(c),
{
    let u = c as u32;
    if u < 0x80 {
        1
    } else if u < 0x800 {
        2
    } else if u < 0x10000 {
        3
    } else {
        4
    }
}

/// An expression at `pos` (see [`parse_expr_at`]): its value, the position after it, and how
/// many bytes into the character there it ends.
fn parse(isa: &Isa, s: &Vec<char>, pos: usize, min: u8) -> (r: Option<((i32, [i32; 32]), usize, usize)>)
    requires
        pos <= s.len(),
    ensures
        match parse_expr_at(isa, s@, pos as int, min as int) {
            None => r is None,
            Some((v, c, o)) => r matches Some((w, e, eo)) && linear_of(w) == v && e == clamp_pos(
                s@,
                pos + c,
            ) && eo == o,
        },
        r matches Some((_, e, eo)) ==> pos < e <= s.len() && eo < 4 && (eo > 0 ==> e < s.len()),
    decreases s.len() - pos, 2usize,
{
    let p = skip_whitespace(s, pos);
    let (left, e, eo) = match parse_operand(isa, s, p) {
        Some(x) => x,
        None => return None,
    };
    parse_tail(isa, s, left, e, eo, min)
}

/// One operand at `pos` (see [`parse_operand_at`]): its value, the position after it, and how
/// many bytes into the character there it ends.
fn parse_operand(isa: &Isa, s: &Vec<char>, pos: usize) -> (r: Option<((i32, [i32; 32]), usize, usize)>)
    requires
        pos <= s.len(),
    ensures
        match parse_operand_at(isa, s@, pos as int) {
            None => r is None,
            Some((v, c, o)) => r matches Some((w, e, eo)) && linear_of(w) == v && e == clamp_pos(
                s@,
                pos + c,
            ) && eo == o,
        },
        r matches Some((_, e, eo)) ==> pos < e <= s.len() && eo < 4 && (eo > 0 ==> e < s.len()),
    decreases s.len() - pos, 1usize,
{
    if pos >= s.len() {
        return None;
    }
    let c = s[pos];
    if c == '(' {
        match parse(isa, s, pos + 1, 0) {
            None => None,
            Some((v, e, eo)) => {
                if e < s.len() && eo + 1 < utf8_width_of(s[e]) {
                    Some((v, e, eo + 1))
                } else if e < s.len() {
                    Some((v, e + 1, 0))
                } else {
                    Some((v, e, 0))
                }
            },
        }
    } else if c == '|' {
        proof {
            lemma_index_of_from(s@, pos + 1, '|');
        }
        match find_char(s, pos + 1, s.len(), '|') {
            None => None,
            Some(j) => {
                let (a, b) = trim_range(s, pos + 1, j, Strip::Whitespace);
                match isa.reg_of(s, a, b) {
                    Some(reg) => {
                        if reg < 32 {
                            let mut regs = [0i32; 32];
                            regs[reg as usize] = 1;
                            Some(((0, regs), j + 1, 0))
                        } else {
                            None
                        }
                    },
                    None => None,
                }
            },
        }
    } else {
        let end = skip_digits(s, pos);
        match parse_i32_range(s, pos, end) {
            Some(v) => {
                let regs = [0i32; 32];
                assert(regs@ =~= zero_regs());
                Some(((v, regs), end, 0))
            },
            None => None,
        }
    }
}

/// The operators and operands after `left` at `pos`, `off` bytes into the character there
/// (see [`parse_tail_at`]): the value, the position after them, and the byte offset there.
fn parse_tail(
    isa: &Isa,
    s: &Vec<char>,
    left: (i32, [i32; 32]),
    pos: usize,
    off: usize,
    min: u8,
) -> (r: Option<((i32, [i32; 32]), usize, usize)>)
    requires
        pos <= s.len(),
        off < 4,
        off > 0 ==> pos < s.len(),
    ensures
        match parse_tail_at(isa, s@, linear_of(left), pos as int, off as nat, min as int) {
            None => r is None,
            Some((v, c, o)) => r matches Some((w, e, eo)) && linear_of(w) == v && e == clamp_pos(
                s@,
                pos + c,
            ) && eo == o,
        },
        r matches Some((_, e, eo)) ==> pos <= e <= s.len() && eo < 4 && (eo > 0 ==> e < s.len()),
    decreases s.len() - pos, 0usize,
{
    if off > 0 {
        return Some((left, pos, off));
    }
    let p = skip_whitespace(s, pos);
    if p >= s.len() {
        return Some((left, p, 0));
    }
    let op = s[p];
    let prec: u8 = if op == '+' || op == '-' {
        1
    } else if op == '*' || op == '/' {
        2
    } else {
        0
    };
    if prec == 0 || prec < min {
        return Some((left, p, 0));
    }
    let ghost sp = parse_expr_at(isa, s@, p + 1, prec + 1);
    match parse(isa, s, p + 1, prec + 1) {
        None => None,
        Some((right, e, eo)) => match apply(op, &left, &right) {
            None => None,
            Some(v) => {
                proof {
                    lemma_tail_past_end(isa, s@, linear_of(v), min as int);
                }
                let res = parse_tail(isa, s, v, e, eo, min);
                assert(parse_tail_at(isa, s@, linear_of(v), p + 1 + sp.unwrap().1, eo as nat, min as int)
                    == parse_tail_at(isa, s@, linear_of(v), e as int, eo as nat, min as int) || (p + 1
                    + sp.unwrap().1 > s.len()));
                res
            },
        },
    }
}


/// The linear form of `expression`, if it parses and its arithmetic neither overflows nor
/// divides by zero.
pub fn try_parse_expression(isa: &Isa, expression: &str) -> (r: Option<(i32, [i32; 32])>)
    ensures
        match spec_parse_expression(isa, expression@) {
            None => r is None,
            Some(v) => r matches Some(w) && linear_of(w) == v,
        },
{
    let s = to_chars(expression);
    match parse(isa, &s, 0, 0) {
        Some((v, _, _)) => Some(v),
        None => None,
    }
}

/// The linear form of `expression`: its constant and the coefficient of each register.
pub fn parse_expression(isa: &Isa, expression: &str) -> (r: (i32, [i32; 32]))
    requires
        spec_parse_expression(isa, expression@) is Some,
    ensures
        spec_parse_expression(isa, expression@) == Some(linear_of(r)),
{
    try_parse_expression(isa, expression).unwrap()
}

/// `s` repeated `n` times.
pub open spec fn repeat(s: Seq<u8>, n: nat) -> Seq<u8>
    decreases n,
{
    if n == 0 {
        seq![]
    } else {
        repeat(s, (n - 1) as nat) + s
    }
}

pub open spec fn abs(v: i32) -> nat {
    if v < 0 {
        (-v) as nat
    } else {
        v as nat
    }
}

/// `i32::unsigned_abs`.
pub fn unsigned_abs(v: i32) -> (r: u32)
    ensures
        r == abs(v),
{
    if v < 0 {
        (-(v as i64)) as u32
    } else {
        v as u32
    }
}

/// x86-64: what loads `rd` with `c + coef * rd`: `mov rd, imm32` where `coef` is 0, else
/// `imul rd, rd, coef` (unless `coef` is 1) and `add rd, c` (unless `c` is 0).
pub open spec fn x86_register_head(d: u8, c: i32, coef: i32) -> Seq<u8> {
    if coef == 0 {
        seq![0x48u8, 0xC7u8, spec_modrm(3, 0, d)] + le_i32(c)
    } else {
        (if coef != 1 {
            seq![0x48u8, 0x69u8, spec_modrm(3, d, d)] + le_i32(coef)
        } else {
            seq![]
        }) + (if c != 0 {
            seq![0x48u8, 0x81u8, spec_modrm(3, 0, d)] + le_i32(c)
        } else {
            seq![]
        })
    }
}

/// x86-64: `coef` times `add rd, r` (or `sub rd, r` for a negative `coef`); nothing for the
/// destination itself.
pub open spec fn x86_register_term(d: u8, r: int, coef: i32) -> Seq<u8> {
    if r == d || coef == 0 {
        seq![]
    } else {
        repeat(
            (if coef > 0 {
                ADD@
            } else {
                SUB@
            }) + seq![spec_modrm(3, r as u8, d)],
            abs(coef),
        )
    }
}

/// The terms of registers `0..n`, in order.
pub open spec fn x86_register_terms(d: u8, regs: Seq<i32>, n: nat) -> Seq<u8>
    decreases n,
{
    if n == 0 {
        seq![]
    } else {
        x86_register_terms(d, regs, (n - 1) as nat) + x86_register_term(d, n - 1, regs[n - 1])
    }
}

/// x86-64 code that sets register `d` to the linear form `v` of registers (`d` itself taken
/// at its old value).
pub open spec fn x86_register_code(d: u8, v: Linear) -> Seq<u8> {
    x86_register_head(d, v.0, v.1[d as int]) + x86_register_terms(d, v.1, 32)
}

/// `out` followed by `n` copies of `unit`.
fn push_repeated(out: &mut Vec<u8>, unit: &Vec<u8>, n: u32)
    ensures
        final(out)@ == old(out)@ + repeat(unit@, n as nat),
{
    let mut k: u32 = 0;
    while k < n
        invariant
            k <= n,
            out@ == old(out)@ + repeat(unit@, k as nat),
        decreases n - k,
    {
        let mut u = unit.clone();
        out.append(&mut u);
        k += 1;
    }
}

/// x86-64 code that sets register `d` to the linear form `v`.
fn encode_register(d: u8, v: &(i32, [i32; 32])) -> (r: Vec<u8>)
    requires
        d < 32,
    ensures
        r@ == x86_register_code(d, linear_of(*v)),
{
    let (constant, registers) = *v;
    let mut output: Vec<u8> = Vec::new();
    let coefficient = registers[d as usize];
    if coefficient == 0 {
        output.append(&mut vec![0x48, 0xC7, modrm(0b11, 0, d)]);
        output.append(&mut le_i32_bytes(constant));
    } else {
        if coefficient != 1 {
            output.append(&mut vec![0x48, 0x69, modrm(0b11, d, d)]);
            output.append(&mut le_i32_bytes(coefficient));
        }
        if constant != 0 {
            output.append(&mut vec![0x48, 0x81, modrm(0b11, 0, d)]);
            output.append(&mut le_i32_bytes(constant));
        }
    }
    let ghost head = output@;
    let mut register: usize = 0;
    while register < 32
        invariant
            0 <= register <= 32,
            d < 32,
            output@ == head + x86_register_terms(d, registers@, register as nat),
        decreases 32 - register,
    {
        let c = registers[register];
        if register != d as usize && c != 0 {
            let mut unit = if c > 0 {
                vec![ADD[0], ADD[1], modrm(0b11, register as u8, d)]
            } else {
                vec![SUB[0], SUB[1], modrm(0b11, register as u8, d)]
            };
            assert(unit@ == (if c > 0 {
                ADD@
            } else {
                SUB@
            }) + seq![spec_modrm(3, register as u8, d)]);
            push_repeated(&mut output, &unit, unsigned_abs(c));
        }
        register += 1;
        assert(x86_register_terms(d, registers@, register as nat) == x86_register_terms(
            d,
            registers@,
            (register - 1) as nat,
        ) + x86_register_term(d, register - 1, registers@[register - 1]));
    }
    output
}

/// x86-64 code that sets register `destination` to the value of `expression`, in which the
/// destination stands for its old value.
pub fn assemble_register(isa: &Isa, destination: u8, expression: &str) -> (r: Vec<u8>)
    requires
        destination < 32,
        spec_parse_expression(isa, expression@) is Some,
    ensures
        r@ == x86_register_code(destination, spec_parse_expression(isa, expression@)->0),
{
    let v = parse_expression(isa, expression);
    encode_register(destination, &v)
}


/// Where the base register of a memory operand `base ± displacement` ends.
pub open spec fn memory_split(m: Seq<char>) -> int {
    first_of(m, 0, '+', '-')
}

/// The base register text of a memory operand.
pub open spec fn memory_base(m: Seq<char>) -> Seq<char> {
    trim(m.take(memory_split(m)))
}

/// The displacement of a memory operand: the signed number after the base, spaces ignored;
/// 0 where there is none or it is not a valid `i32`.
pub open spec fn memory_displacement(m: Seq<char>) -> i32 {
    match parse_i32(remove_char(m.skip(memory_split(m)), ' ')) {
        Some(d) => d,
        None => 0,
    }
}

proof fn lemma_first_sign(b: Seq<char>, rest: Seq<char>, i: int)
    requires
        0 <= i <= b.len(),
        forall|k: int| 0 <= k < b.len() ==> #[trigger] b[k] != '+' && b[k] != '-',
        rest.len() > 0,
        rest[0] == '+' || rest[0] == '-',
    ensures
        first_of(b + rest, i, '+', '-') == b.len(),
    decreases b.len() - i,
{
    let m = b + rest;
    if i < b.len() {
        assert(m[i] == b[i]);
        lemma_first_sign(b, rest, i + 1);
    } else {
        assert(m[i] == rest[0]);
    }
}

proof fn lemma_remove_char_concat(a: Seq<char>, b: Seq<char>, c: char)
    ensures
        remove_char(a + b, c) == remove_char(a, c) + remove_char(b, c),
    decreases b.len(),
{
    if b.len() == 0 {
        assert(a + b =~= a);
        assert(remove_char(a, c) + remove_char(b, c) =~= remove_char(a, c));
    } else {
        assert((a + b).drop_last() =~= a + b.drop_last());
        assert((a + b).last() == b.last());
        lemma_remove_char_concat(a, b.drop_last(), c);
        if b.last() != c {
            assert(remove_char(a, c) + remove_char(b.drop_last(), c).push(b.last()) =~= (remove_char(
                a,
                c,
            ) + remove_char(b.drop_last(), c)).push(b.last()));
        }
    }
}

/// A memory operand `base ± number` (spaces anywhere in the number ignored) has that base
/// and, as its displacement, the number with its sign; one without a sign has displacement 0.
pub proof fn lemma_memory_operand_parts(b: Seq<char>, sign: char, d: Seq<char>)
    requires
        forall|k: int| 0 <= k < b.len() ==> #[trigger] b[k] != '+' && b[k] != '-',
    ensures
        memory_base(b) == trim(b),
        memory_displacement(b) == 0,
        (sign == '+' || sign == '-') && remove_char(d, ' ').len() > 0 && all_digits(
            remove_char(d, ' '),
        ) && i32::MIN <= (if sign == '-' {
            -digits_value(remove_char(d, ' '))
        } else {
            digits_value(remove_char(d, ' '))
        }) <= i32::MAX ==> memory_base(b + seq![sign] + d) == trim(b) && memory_displacement(
            b + seq![sign] + d,
        ) == (if sign == '-' {
            -digits_value(remove_char(d, ' '))
        } else {
            digits_value(remove_char(d, ' '))
        }),
{
    lemma_first_sign_none(b, 0);
    assert(b.take(b.len() as int) =~= b);
    assert(b.skip(b.len() as int) =~= Seq::<char>::empty());
    if sign == '+' || sign == '-' {
        let rest = seq![sign] + d;
        let m = b + seq![sign] + d;
        assert(m =~= b + rest);
        lemma_first_sign(b, rest, 0);
        assert(m.take(b.len() as int) =~= b);
        assert(m.skip(b.len() as int) =~= rest);
        lemma_remove_char_concat(seq![sign], d, ' ');
        assert(remove_char(seq![sign], ' ') == seq![sign]) by {
            let one = seq![sign];
            assert(one.drop_last() =~= Seq::<char>::empty());
            assert(one.last() == sign);
            assert(remove_char(Seq::<char>::empty(), ' ') == Seq::<char>::empty());
            assert(Seq::<char>::empty().push(sign) =~= one);
        }
        let t = seq![sign] + remove_char(d, ' ');
        assert(t.drop_first() =~= remove_char(d, ' '));
        assert(t[0] == sign);
    }
}

proof fn lemma_first_sign_none(b: Seq<char>, i: int)
    requires
        0 <= i <= b.len(),
        forall|k: int| 0 <= k < b.len() ==> #[trigger] b[k] != '+' && b[k] != '-',
    ensures
        first_of(b, i, '+', '-') == b.len(),
    decreases b.len() - i,
{
    if i < b.len() {
        lemma_first_sign_none(b, i + 1);
    }
}

/// Whether the base register of a memory operand is a register of `isa`.
pub open spec fn memory_ok(isa: &Isa, m: Seq<char>) -> bool {
    isa.spec_reg(memory_base(m)) is Some
}

/// The base register and displacement of a memory operand.
pub(crate) fn memory_operand(isa: &Isa, memory: &str) -> (r: (u8, i32))
    requires
        memory_ok(isa, memory@),
    ensures
        Some(r.0) == isa.spec_reg(memory_base(memory@)),
        r.1 == memory_displacement(memory@),
{
    let m = to_chars(memory);
    let split = find_either(&m, '+', '-');
    let (a, b) = trim_range(&m, 0, split, Strip::Whitespace);
    let base = isa.reg_of(&m, a, b).unwrap();
    let rest = without_char(&m, split, m.len(), ' ');
    assert(rest@.subrange(0, rest@.len() as int) == rest@);
    let displacement = match parse_i32_range(&rest, 0, rest.len()) {
        Some(d) => d,
        None => 0,
    };
    (base, displacement)
}

/// x86-64: the addressing mode of `[base + displacement]`: none, an 8-bit or a 32-bit
/// displacement (`[rbp]` has no mode without one).
pub open spec fn x86_memory_mode(base: u8, displacement: i32) -> u8 {
    if displacement == 0 && base != 5 {
        0
    } else if -128 <= displacement <= 127 {
        1
    } else {
        2
    }
}

/// x86-64: the operation bytes, the ModR/M byte, a SIB byte where the base is `rsp`, and the
/// displacement.
pub open spec fn x86_memory_code(op: Seq<u8>, register: u8, base: u8, displacement: i32) -> Seq<u8> {
    let mode = x86_memory_mode(base, displacement);
    op + seq![spec_modrm(mode, register, base)] + (if base == 4 {
        seq![0x24u8]
    } else {
        seq![]
    }) + (if mode == 1 {
        seq![(displacement as i8) as u8]
    } else if mode == 2 {
        le_i32(displacement)
    } else {
        seq![]
    })
}

/// x86-64: the operation `operation_bytes` (a load or a store) between `register` and the
/// memory operand `memory` (`base`, `base + n` or `base - n`).
pub fn assemble_memory_operation(isa: &Isa, operation_bytes: &[u8], register: u8, memory: &str) -> (r:
    Vec<u8>)
    requires
        memory_ok(isa, memory@),
    ensures
        r@ == x86_memory_code(
            operation_bytes@,
            register,
            isa.spec_reg(memory_base(memory@))->0,
            memory_displacement(memory@),
        ),
{
    let (base, displacement) = memory_operand(isa, memory);
    let mode: u8 = if displacement == 0 && base != 5 {
        0b00
    } else if -128 <= displacement && displacement <= 127 {
        0b01
    } else {
        0b10
    };
    let mut output = vstd::slice::slice_to_vec(operation_bytes);
    output.push(modrm(mode, register, base));
    if base == 4 {
        output.push(0x24);
    }
    if mode == 0b01 {
        output.push((displacement as i8) as u8);
    } else if mode == 0b10 {
        output.append(&mut le_i32_bytes(displacement));
    }
    output
}

/// x86-64: `lea register, [rip + disp32]`, whose displacement is filled in later.
pub fn assemble_address(_isa: &Isa, register: u8) -> (r: Vec<u8>)
    ensures
        r@ == seq![0x48u8, 0x8Du8, spec_modrm(0, register, 0b101)],
{
    vec![0x48, 0x8D, modrm(0b00, register, 0b101)]
}

/// The comparison operators, two-character ones first so that `<=` is not taken for `<`.
pub open spec fn operator_text(i: int) -> Seq<char> {
    if i == 0 {
        "=="@
    } else if i == 1 {
        "!="@
    } else if i == 2 {
        "<="@
    } else if i == 3 {
        ">="@
    } else if i == 4 {
        "<"@
    } else {
        ">"@
    }
}

/// The first operator, from `i` on, that occurs in `condition`.
pub open spec fn operator_from(condition: Seq<char>, i: int) -> Option<int>
    decreases 6 - i,
{
    if i < 0 || i >= 6 {
        None
    } else if find_sub(condition, operator_text(i)) is Some {
        Some(i)
    } else {
        operator_from(condition, i + 1)
    }
}

/// The operator of a condition: the first in the list that occurs in it.
pub open spec fn condition_operator(condition: Seq<char>) -> Option<int> {
    operator_from(condition, 0)
}

/// The operator of a condition is the first of the list that occurs in it: none listed before
/// it occurs. So a `<` (or `>`) is never read out of a `<=` (or `>=`).
pub proof fn lemma_operator_is_first(condition: Seq<char>, i: int)
    requires
        condition_operator(condition) == Some(i),
    ensures
        0 <= i < 6,
        find_sub(condition, operator_text(i)) is Some,
        forall|j: int| 0 <= j < i ==> find_sub(condition, #[trigger] operator_text(j)) is None,
        i == 4 ==> find_sub(condition, "<="@) is None,
        i == 5 ==> find_sub(condition, ">="@) is None,
{
    reveal_with_fuel(operator_from, 7);
}

/// The text on either side of the first occurrence of operator `i`.
pub open spec fn condition_sides(condition: Seq<char>, i: int) -> (Seq<char>, Seq<char>) {
    let k = find_sub(condition, operator_text(i))->0;
    (condition.take(k), condition.skip(k + operator_text(i).len()))
}

/// The register name of an operand written `|name|`, surrounding whitespace ignored.
pub open spec fn operand_name(s: Seq<char>) -> Option<Seq<char>> {
    let t = trim(s);
    if t.len() >= 2 && t[0] == '|' && t.last() == '|' {
        Some(t.subrange(1, t.len() - 1))
    } else {
        None
    }
}

/// Whether an operand written `|name|` names a register of `isa`, where it is so written.
pub open spec fn operand_ok(isa: &Isa, s: Seq<char>) -> bool {
    operand_name(s) matches Some(n) ==> isa.spec_reg(n) is Some
}

/// The register of an operand written `|name|`.
pub open spec fn spec_register_operand(isa: &Isa, s: Seq<char>) -> Option<u8> {
    match operand_name(s) {
        Some(n) => isa.spec_reg(n),
        None => None,
    }
}

/// Whether a condition can be encoded: it holds an operator, its left side is a register,
/// and its right side is a register or a number of the range that `number_ok` gives.
pub open spec fn condition_ok(isa: &Isa, condition: Seq<char>, signed: bool) -> bool {
    match condition_operator(condition) {
        None => false,
        Some(i) => {
            let (l, r) = condition_sides(condition, i);
            &&& spec_register_operand(isa, l) is Some
            &&& operand_ok(isa, r)
            &&& operand_name(r) is None ==> if signed {
                parse_i32(trim(r)) is Some
            } else {
                crate::text::parse_u32(trim(r)) is Some
            }
        },
    }
}

/// The register of the operand `s[lo..hi]` if it is written `|name|`.
pub(crate) fn register_operand(isa: &Isa, s: &Vec<char>, lo: usize, hi: usize) -> (r: Option<u8>)
    requires
        lo <= hi <= s.len(),
        operand_ok(isa, s@.subrange(lo as int, hi as int)),
    ensures
        r == spec_register_operand(isa, s@.subrange(lo as int, hi as int)),
{
    let (a, b) = trim_range(s, lo, hi, Strip::Whitespace);
    if b - a >= 2 && s[a] == '|' && s[b - 1] == '|' {
        assert(s@.subrange(a as int, b as int).subrange(1, b - a - 1) == s@.subrange(
            a + 1,
            b - 1,
        ));
        isa.reg_of(s, a + 1, b - 1)
    } else {
        None
    }
}

/// The operator of a condition and where it first occurs.
pub(crate) fn find_operator(condition: &Vec<char>) -> (r: Option<(usize, usize)>)
    ensures
        match condition_operator(condition@) {
            None => r is None,
            Some(i) => r == Some((i as usize, find_sub(condition@, operator_text(i))->0 as usize)),
        },
        r matches Some((i, k)) ==> k + operator_text(i as int).len() <= condition.len()
            && condition_operator(condition@) == Some(i as int) && find_sub(
            condition@,
            operator_text(i as int),
        ) == Some(k as int),
{
    let ops = [to_chars("=="), to_chars("!="), to_chars("<="), to_chars(">="), to_chars("<"), to_chars(">")];
    let mut i: usize = 0;
    while i < 6
        invariant
            0 <= i <= 6,
            forall|j: int| 0 <= j < 6 ==> (#[trigger] ops@[j])@ == operator_text(j),
            condition_operator(condition@) == operator_from(condition@, i as int),
        decreases 6 - i,
    {
        match find_str(condition, &ops[i]) {
            Some(k) => {
                proof {
                    crate::text::lemma_find_sub(condition@, operator_text(i as int));
                }
                return Some((i, k));
            },
            None => {},
        }
        i += 1;
    }
    None
}

/// The opcode byte of `jcc rel32` (after 0x0F) for each operator.
pub open spec fn x86_condition_code(i: int) -> u8 {
    if i == 0 {
        0x84
    } else if i == 1 {
        0x85
    } else if i == 2 {
        0x8E
    } else if i == 3 {
        0x8D
    } else if i == 4 {
        0x8C
    } else {
        0x8F
    }
}

/// x86-64: `cmp left, right` (a register or a 32-bit immediate), and the first two bytes of the
/// conditional jump taken when the condition holds; its 4-byte displacement comes later.
pub open spec fn x86_compare_code(isa: &Isa, condition: Seq<char>) -> (Seq<u8>, Seq<u8>) {
    let i = condition_operator(condition)->0;
    let (l, r) = condition_sides(condition, i);
    let left = spec_register_operand(isa, l)->0;
    (
        seq![0x48u8] + match spec_register_operand(isa, r) {
            Some(right) => seq![0x39u8, spec_modrm(3, right, left)],
            None => seq![0x81u8, spec_modrm(3, 7, left)] + le_i32(parse_i32(trim(r))->0),
        },
        seq![0x0Fu8, x86_condition_code(i)],
    )
}

/// The operator, left register and right side (a register, or the bounds of its text) of a
/// condition that [`condition_ok`] accepts.
pub(crate) fn split_condition(isa: &Isa, c: &Vec<char>, signed: bool) -> (r: (usize, u8, Option<u8>, usize, usize))
    requires
        condition_ok(isa, c@, signed),
    ensures
        condition_operator(c@) == Some(r.0 as int),
        spec_register_operand(isa, condition_sides(c@, r.0 as int).0) == Some(r.1),
        spec_register_operand(isa, condition_sides(c@, r.0 as int).1) == r.2,
        r.3 <= r.4 <= c.len(),
        c@.subrange(r.3 as int, r.4 as int) == condition_sides(c@, r.0 as int).1,
{
    let (i, k) = find_operator(c).unwrap();
    let width: usize = if i < 4 {
        2
    } else {
        1
    };
    assert(operator_text(i as int).len() == width) by {
        reveal_strlit("==");
        reveal_strlit("!=");
        reveal_strlit("<=");
        reveal_strlit(">=");
        reveal_strlit("<");
        reveal_strlit(">");
    }
    proof {
        crate::text::lemma_find_sub(c@, operator_text(i as int));
    }
    let left = register_operand(isa, c, 0, k).unwrap();
    let right = register_operand(isa, c, k + width, c.len());
    (i, left, right, k + width, c.len())
}

/// x86-64: compare the two sides of `condition` (`|reg| op |reg|` or `|reg| op number`), and
/// the opcode of the conditional jump taken when it holds.
pub fn assemble_compare(isa: &Isa, condition: &str) -> (r: (Vec<u8>, Vec<u8>))
    requires
        condition_ok(isa, condition@, true),
    ensures
        (r.0@, r.1@) == x86_compare_code(isa, condition@),
{
    let c = to_chars(condition);
    let (i, left, right, lo, hi) = split_condition(isa, &c, true);
    let mut output = vec![0x48];
    match right {
        Some(right) => output.append(&mut vec![0x39, modrm(0b11, right, left)]),
        None => {
            let (a, b) = trim_range(&c, lo, hi, Strip::Whitespace);
            let immediate = parse_i32_range(&c, a, b).unwrap();
            output.append(&mut vec![0x81, modrm(0b11, 7, left)]);
            output.append(&mut le_i32_bytes(immediate));
        },
    }
    let code: u8 = if i == 0 {
        0x84
    } else if i == 1 {
        0x85
    } else if i == 2 {
        0x8E
    } else if i == 3 {
        0x8D
    } else if i == 4 {
        0x8C
    } else {
        0x8F
    };
    (output, vec![0x0F, code])
}


/// The byte that an escape `\c` stands for: `\n`, `\t`, `\0`, and otherwise the low byte of
/// the character itself.
pub open spec fn escape_byte(c: char) -> u8 {
    if c == 'n' {
        10
    } else if c == 't' {
        9
    } else if c == '0' {
        0
    } else {
        (c as u32) as u8
    }
}

/// The bytes of `s[i..]` with its escapes resolved and its other characters in UTF-8; `None`
/// where it ends with a lone `\`.
pub open spec fn unescape_from(s: Seq<char>, i: int) -> Option<Seq<u8>>
    decreases s.len() - i,
{
    if i < 0 || i >= s.len() {
        Some(seq![])
    } else if s[i] == '\\' {
        if i + 1 >= s.len() {
            None
        } else {
            match unescape_from(s, i + 2) {
                Some(rest) => Some(seq![escape_byte(s[i + 1])] + rest),
                None => None,
            }
        }
    } else {
        match unescape_from(s, i + 1) {
            Some(rest) => Some(encode_scalar(s[i] as u32) + rest),
            None => None,
        }
    }
}

/// The bytes of `s` with its escapes resolved.
pub open spec fn spec_unescape(s: Seq<char>) -> Option<Seq<u8>> {
    unescape_from(s, 0)
}

proof fn lemma_unescape_plain_from(s: Seq<char>, i: int)
    requires
        0 <= i <= s.len(),
        !s.contains('\\'),
    ensures
        unescape_from(s, i) == Some(encode_utf8(s.skip(i))),
    decreases s.len() - i,
{
    if i < s.len() {
        lemma_unescape_plain_from(s, i + 1);
        assert(s.skip(i).drop_first() =~= s.skip(i + 1));
    }
}

/// Text without a backslash is taken as it is: its bytes are its UTF-8 encoding.
pub proof fn lemma_unescape_plain(s: Seq<char>)
    requires
        !s.contains('\\'),
    ensures
        spec_unescape(s) == Some(encode_utf8(s)),
{
    lemma_unescape_plain_from(s, 0);
    assert(s.skip(0) =~= s);
}

/// `s[lo..hi]` with its escapes resolved.
fn unescape_range(s: &Vec<char>, lo: usize, hi: usize) -> (r: Vec<u8>)
    requires
        lo <= hi <= s.len(),
        spec_unescape(s@.subrange(lo as int, hi as int)) is Some,
    ensures
        Some(r@) == spec_unescape(s@.subrange(lo as int, hi as int)),
{
    let ghost t = s@.subrange(lo as int, hi as int);
    let mut bytes: Vec<u8> = Vec::new();
    let mut i = lo;
    while i < hi
        invariant
            lo <= i <= hi <= s.len(),
            t == s@.subrange(lo as int, hi as int),
            unescape_from(t, i - lo) is Some,
            spec_unescape(t) == Some(bytes@ + unescape_from(t, i - lo)->0),
        decreases hi - i,
    {
        let c = s[i];
        if c == '\\' {
            let e = s[i + 1];
            let b: u8 = if e == 'n' {
                10
            } else if e == 't' {
                9
            } else if e == '0' {
                0
            } else {
                (e as u32) as u8
            };
            let ghost rest = unescape_from(t, i + 2 - lo)->0;
            bytes.push(b);
            i += 2;
        } else {
            let mut enc = encode_char(c);
            let ghost rest = unescape_from(t, i + 1 - lo)->0;
            bytes.append(&mut enc);
            i += 1;
        }
    }
    bytes
}

/// The bytes of `text` with its escapes (`\n`, `\t`, `\0`, `\c`) resolved and its other
/// characters in UTF-8.
pub fn unescape(text: &str) -> (r: Vec<u8>)
    requires
        spec_unescape(text@) is Some,
    ensures
        Some(r@) == spec_unescape(text@),
{
    let s = to_chars(text);
    assert(s@.subrange(0, s@.len() as int) == s@);
    unescape_range(&s, 0, s.len())
}

/// The eight little-endian bytes of each number of `words[k..]`, in order; `None` where one
/// is not an `i64`.
pub open spec fn numbers_from(words: Seq<Seq<char>>, k: int) -> Option<Seq<u8>>
    decreases words.len() - k,
{
    if k < 0 || k >= words.len() {
        Some(seq![])
    } else {
        match parse_i64(words[k]) {
            None => None,
            Some(n) => match numbers_from(words, k + 1) {
                Some(rest) => Some(le_i64(n) + rest),
                None => None,
            },
        }
    }
}

/// The bytes of a data value: a quoted string (its closing quotes dropped, its escapes
/// resolved), or whitespace-separated integers, each as eight little-endian bytes.
pub open spec fn spec_parse_data(v: Seq<char>) -> Option<Seq<u8>> {
    if v.len() > 0 && v[0] == '"' {
        spec_unescape(trim_end_by(v.drop_first(), Strip::Char('"')))
    } else {
        numbers_from(words(v), 0)
    }
}

/// The bytes of a data value (see [`spec_parse_data`]).
pub fn parse_data(value: &str) -> (r: Vec<u8>)
    requires
        spec_parse_data(value@) is Some,
    ensures
        Some(r@) == spec_parse_data(value@),
{
    let v = to_chars(value);
    if v.len() > 0 && v[0] == '"' {
        let end = trim_end_index(&v, 1, v.len(), Strip::Char('"'));
        return unescape_range(&v, 1, end);
    }
    assert(v@.subrange(0, v@.len() as int) == v@);
    let numbers = split_words(&v, 0, v.len());
    let ghost ws = views(numbers@);
    let mut bytes: Vec<u8> = Vec::new();
    let mut k: usize = 0;
    while k < numbers.len()
        invariant
            k <= numbers.len(),
            ws == views(numbers@),
            ws == words(v@),
            numbers_from(ws, k as int) is Some,
            spec_parse_data(v@) == Some(bytes@ + numbers_from(ws, k as int)->0),
        decreases numbers.len() - k,
    {
        let w = &numbers[k];
        assert(w@.subrange(0, w@.len() as int) == w@);
        let n = parse_i64_range(w, 0, w.len()).unwrap();
        let mut le = le_i64_bytes(n);
        bytes.append(&mut le);
        k += 1;
    }
    bytes
}

impl Isa {
    /// Whether [`Isa::enc_reg`] can set `destination` to `expression`.
    pub open spec fn enc_reg_ok(&self, destination: u8, expression: Seq<char>) -> bool {
        &&& spec_parse_expression(self, expression) is Some
        &&& match self.ARCH {
            Arch::X86_64 => destination < 32,
            Arch::Aarch64 => destination < 31,
        }
    }

    /// The code of this target that sets `destination` to the linear form `v`.
    pub open spec fn register_code(&self, destination: u8, v: Linear) -> Seq<u8> {
        match self.ARCH {
            Arch::X86_64 => x86_register_code(destination, v),
            Arch::Aarch64 => arm::arm_register_code(destination, v),
        }
    }

    /// This target's code that sets `destination` to the value of `expression`.
    pub fn enc_reg(&self, destination: u8, expression: &str) -> (r: Vec<u8>)
        requires
            self.enc_reg_ok(destination, expression@),
        ensures
            r@ == self.register_code(destination, spec_parse_expression(self, expression@)->0),
    {
        match self.ARCH {
            Arch::X86_64 => assemble_register(self, destination, expression),
            Arch::Aarch64 => arm::assemble_register(self, destination, expression),
        }
    }

    /// Whether [`Isa::enc_mem`] can encode an access to `memory` with `operation_bytes`.
    pub open spec fn enc_mem_ok(&self, operation_bytes: Seq<u8>, memory: Seq<char>) -> bool {
        match self.ARCH {
            Arch::X86_64 => memory_ok(self, memory),
            Arch::Aarch64 => operation_bytes.len() == 4 && arm::arm_memory_ok(self, memory),
        }
    }

    /// The code of this target for the operation `op` between `register` and `memory`.
    pub open spec fn memory_code(&self, op: Seq<u8>, register: u8, memory: Seq<char>) -> Seq<u8> {
        let base = self.spec_reg(memory_base(memory))->0;
        match self.ARCH {
            Arch::X86_64 => x86_memory_code(op, register, base, memory_displacement(memory)),
            Arch::Aarch64 => le_u32(
                arm::arm_memory_word(arm::from_le(op), register, base, memory_displacement(memory)),
            ),
        }
    }

    /// This target's load or store (`operation_bytes`) between `register` and `memory`.
    pub fn enc_mem(&self, operation_bytes: &[u8], register: u8, memory: &str) -> (r: Vec<u8>)
        requires
            self.enc_mem_ok(operation_bytes@, memory@),
        ensures
            r@ == self.memory_code(operation_bytes@, register, memory@),
    {
        match self.ARCH {
            Arch::X86_64 => assemble_memory_operation(self, operation_bytes, register, memory),
            Arch::Aarch64 => arm::assemble_memory_operation(self, operation_bytes, register, memory),
        }
    }

    /// The code of this target that loads an address into `register`, its offset left to
    /// be filled in.
    pub open spec fn address_code(&self, register: u8) -> Seq<u8> {
        match self.ARCH {
            Arch::X86_64 => seq![0x48u8, 0x8Du8, spec_modrm(0, register, 0b101)],
            Arch::Aarch64 => le_u32(0x1000_0000u32 | (register as u32)),
        }
    }

    /// This target's code that loads an address into `register`.
    pub fn enc_addr(&self, register: u8) -> (r: Vec<u8>)
        ensures
            r@ == self.address_code(register),
    {
        match self.ARCH {
            Arch::X86_64 => assemble_address(self, register),
            Arch::Aarch64 => arm::assemble_address(self, register),
        }
    }

    /// Whether [`Isa::enc_cmp`] can encode `condition` (x86-64 takes signed numbers,
    /// AArch64 unsigned ones).
    pub open spec fn enc_cmp_ok(&self, condition: Seq<char>) -> bool {
        match self.ARCH {
            Arch::X86_64 => condition_ok(self, condition, true),
            Arch::Aarch64 => condition_ok(self, condition, false),
        }
    }

    /// The comparison and the conditional-jump opcode of this target for `condition`.
    pub open spec fn compare_code(&self, condition: Seq<char>) -> (Seq<u8>, Seq<u8>) {
        match self.ARCH {
            Arch::X86_64 => x86_compare_code(self, condition),
            Arch::Aarch64 => arm::arm_compare_code(self, condition),
        }
    }

    /// This target's comparison for `condition` and its conditional jump.
    pub fn enc_cmp(&self, condition: &str) -> (r: (Vec<u8>, Vec<u8>))
        requires
            self.enc_cmp_ok(condition@),
        ensures
            (r.0@, r.1@) == self.compare_code(condition@),
    {
        match self.ARCH {
            Arch::X86_64 => assemble_compare(self, condition),
            Arch::Aarch64 => arm::assemble_compare(self, condition),
        }
    }
}

} // verus!
