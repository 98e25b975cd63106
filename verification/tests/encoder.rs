use lib::encoder::{
    assemble_address, assemble_compare, assemble_memory_operation, assemble_register,
    parse_data, parse_expression, try_parse_expression, unescape,
};
use lib::target;

fn coefficients(pairs: &[(usize, i32)]) -> [i32; 32] {
    let mut r = [0i32; 32];
    for &(i, c) in pairs {
        r[i] = c;
    }
    r
}

#[test]
fn expressions_of_constants() {
    let isa = target::x86_64();
    assert_eq!(parse_expression(&isa, "50+3"), (53, [0; 32]));
    assert_eq!(parse_expression(&isa, " (1 + 2) * 3 "), (9, [0; 32]));
    assert_eq!(parse_expression(&isa, "7/2"), (3, [0; 32]));
    assert_eq!(parse_expression(&isa, "(0-7)/2"), (-3, [0; 32]));
    assert_eq!(parse_expression(&isa, "2+3*4-1"), (13, [0; 32]));
    assert_eq!(parse_expression(&isa, "10-4-3"), (3, [0; 32]));
}

#[test]
fn expressions_of_registers() {
    let isa = target::x86_64();
    assert_eq!(parse_expression(&isa, "2 * |r1| + 5"), (5, coefficients(&[(1, 2)])));
    assert_eq!(parse_expression(&isa, "|r0| - 3*|r2|"), (0, coefficients(&[(0, 1), (2, -3)])));
    assert_eq!(parse_expression(&isa, "|stack|*4/2"), (0, coefficients(&[(4, 2)])));
    assert_eq!(parse_expression(&isa, "(|r3| + 1) * 2"), (2, coefficients(&[(3, 2)])));
    let arm = target::aarch64();
    assert_eq!(parse_expression(&arm, "|r7|"), (0, coefficients(&[(8, 1)])));
}

#[test]
fn expressions_that_fail() {
    let isa = target::x86_64();
    assert_eq!(try_parse_expression(&isa, "5/0"), None);
    assert_eq!(try_parse_expression(&isa, ""), None);
    assert_eq!(try_parse_expression(&isa, "|rx|"), None);
    assert_eq!(try_parse_expression(&isa, "|r1"), None);
    assert_eq!(try_parse_expression(&isa, "2147483648"), None);
    assert_eq!(try_parse_expression(&isa, "2147483647+1"), None);
    assert_eq!(try_parse_expression(&isa, "2147483647"), Some((2147483647, [0; 32])));
}

#[test]
fn x86_register_loads() {
    let isa = target::x86_64();
    assert_eq!(assemble_register(&isa, 0, "5"), vec![0x48, 0xC7, 0xC0, 5, 0, 0, 0]);
    assert_eq!(assemble_register(&isa, 1, "|r1| + 2"), vec![0x48, 0x81, 0xC1, 2, 0, 0, 0]);
    assert_eq!(
        assemble_register(&isa, 0, "|r1|*2"),
        vec![0x48, 0xC7, 0xC0, 0, 0, 0, 0, 0x48, 0x01, 0xC8, 0x48, 0x01, 0xC8]
    );
    assert_eq!(
        assemble_register(&isa, 0, "0-|r2|"),
        vec![0x48, 0xC7, 0xC0, 0, 0, 0, 0, 0x48, 0x29, 0xD0]
    );
    assert_eq!(assemble_register(&isa, 0, "3*|r0|"), vec![0x48, 0x69, 0xC0, 3, 0, 0, 0]);
    assert_eq!(
        assemble_register(&isa, 2, "0-1"),
        vec![0x48, 0xC7, 0xC2, 0xFF, 0xFF, 0xFF, 0xFF]
    );
}

#[test]
fn aarch64_register_loads() {
    let isa = target::aarch64();
    assert_eq!(lib::encoder::arm::assemble_register(&isa, 0, "5"), vec![0xA0, 0x00, 0x80, 0xD2]);
    assert_eq!(lib::encoder::arm::assemble_register(&isa, 1, "0-1"), vec![0x01, 0x00, 0x80, 0x92]);
    assert_eq!(
        lib::encoder::arm::assemble_register(&isa, 0, "65536"),
        vec![0x00, 0x00, 0x80, 0xD2, 0x20, 0x00, 0xA0, 0xF2]
    );
    // x1 = x1 + 3: add x1, x1, #3
    assert_eq!(
        lib::encoder::arm::assemble_register(&isa, 1, "|r1| + 3"),
        (0x9100_0000u32 | (3 << 10) | (1 << 5) | 1).to_le_bytes().to_vec()
    );
}

#[test]
fn x86_memory_operations() {
    let isa = target::x86_64();
    assert_eq!(
        assemble_memory_operation(&isa, &[0x48, 0x89], 0, "r4 + 8"),
        vec![0x48, 0x89, 0x44, 0x24, 0x08]
    );
    assert_eq!(assemble_memory_operation(&isa, &[0x48, 0x89], 0, "r5"), vec![0x48, 0x89, 0x45, 0x00]);
    assert_eq!(
        assemble_memory_operation(&isa, &[0x48, 0x8B], 2, "r1 - 1000"),
        vec![0x48, 0x8B, 0x91, 0x18, 0xFC, 0xFF, 0xFF]
    );
    assert_eq!(assemble_memory_operation(&isa, &[0x48, 0x8B], 1, "r3"), vec![0x48, 0x8B, 0x0B]);
    assert_eq!(assemble_memory_operation(&isa, &[0x48, 0x8B], 1, "r3 + x"), vec![0x48, 0x8B, 0x0B]);
}

#[test]
fn aarch64_memory_operations() {
    let isa = target::aarch64();
    assert_eq!(
        lib::encoder::arm::assemble_memory_operation(&isa, &[0, 0, 0, 0xF9], 1, "r2 + 16"),
        vec![0x41, 0x08, 0x00, 0xF9]
    );
}

#[test]
fn addresses() {
    assert_eq!(assemble_address(&target::x86_64(), 1), vec![0x48, 0x8D, 0x0D]);
    assert_eq!(lib::encoder::arm::assemble_address(&target::aarch64(), 3), vec![3, 0, 0, 0x10]);
}

#[test]
fn x86_comparisons() {
    let isa = target::x86_64();
    assert_eq!(assemble_compare(&isa, "|r0| == |r1|"), (vec![0x48, 0x39, 0xC8], vec![0x0F, 0x84]));
    assert_eq!(
        assemble_compare(&isa, "|r2| < 10"),
        (vec![0x48, 0x81, 0xFA, 10, 0, 0, 0], vec![0x0F, 0x8C])
    );
    assert_eq!(
        assemble_compare(&isa, "|r2| <= -1"),
        (vec![0x48, 0x81, 0xFA, 0xFF, 0xFF, 0xFF, 0xFF], vec![0x0F, 0x8E])
    );
    assert_eq!(assemble_compare(&isa, "|r3|>|r4|").1, vec![0x0F, 0x8F]);
}

#[test]
fn aarch64_comparisons() {
    let isa = target::aarch64();
    assert_eq!(
        lib::encoder::arm::assemble_compare(&isa, "|r0| != |r1|"),
        (vec![0x1F, 0x00, 0x01, 0xEB], vec![0x01, 0x00, 0x00, 0x54])
    );
    assert_eq!(
        lib::encoder::arm::assemble_compare(&isa, "|r1| >= 5"),
        (vec![0x3F, 0x14, 0x00, 0xF1], vec![0x0A, 0x00, 0x00, 0x54])
    );
}

#[test]
fn escapes() {
    assert_eq!(unescape("a\\nb"), vec![0x61, 0x0A, 0x62]);
    assert_eq!(unescape("\\t\\0"), vec![9, 0]);
    assert_eq!(unescape("\\q"), vec![0x71]);
    assert_eq!(unescape("é"), vec![0xC3, 0xA9]);
    assert_eq!(unescape(""), Vec::<u8>::new());
}

#[test]
fn data_values() {
    assert_eq!(parse_data("\"hi\\n\""), vec![0x68, 0x69, 0x0A]);
    assert_eq!(
        parse_data("1 -2"),
        vec![1, 0, 0, 0, 0, 0, 0, 0, 0xFE, 0xFF, 0xFF, 0xFF, 0xFF, 0xFF, 0xFF, 0xFF]
    );
    assert_eq!(parse_data("   "), Vec::<u8>::new());
    assert_eq!(parse_data("+258").len(), 8);
}

#[test]
fn subtraction_undoes_addition() {
    let isa = target::x86_64();
    assert_eq!(parse_expression(&isa, "(|r1| + 5) - 5"), parse_expression(&isa, "|r1|"));
    assert_eq!(parse_expression(&isa, "(7 + |r2|) - |r2|"), (7, [0; 32]));
    assert_eq!(parse_expression(&isa, "(0-2147483647) + 2147483647"), (0, [0; 32]));
}

#[test]
fn addition_commutes() {
    let isa = target::x86_64();
    assert_eq!(parse_expression(&isa, "3 + |r1|"), parse_expression(&isa, "|r1| + 3"));
    assert_eq!(try_parse_expression(&isa, "2147483647 + 1"), try_parse_expression(&isa, "1 + 2147483647"));
}

#[test]
fn two_character_operators_come_first() {
    let isa = target::x86_64();
    assert_eq!(assemble_compare(&isa, "|r0| <= |r1|").1, vec![0x0F, 0x8E]);
    assert_eq!(assemble_compare(&isa, "|r0| < |r1|").1, vec![0x0F, 0x8C]);
    assert_eq!(assemble_compare(&isa, "|r0| >= |r1|").1, vec![0x0F, 0x8D]);
    assert_eq!(assemble_compare(&isa, "|r0| != |r1|").1, vec![0x0F, 0x85]);
}

#[test]
fn plain_text_is_its_utf8() {
    assert_eq!(unescape("héllo, wörld"), "héllo, wörld".as_bytes().to_vec());
}

#[test]
fn a_parenthesis_is_closed_by_one_byte() {
    let isa = target::x86_64();
    // the byte after `(5` is the first of the two of `é`: the operand ends inside it
    assert_eq!(try_parse_expression(&isa, "(5é+3"), Some((5, [0; 32])));
    assert_eq!(try_parse_expression(&isa, "(5é+"), Some((5, [0; 32])));
    // a second closing step moves past the rest of `é`, and reading goes on after it
    assert_eq!(try_parse_expression(&isa, "((5é+3"), Some((8, [0; 32])));
    assert_eq!(try_parse_expression(&isa, "(1+2)*3"), Some((9, [0; 32])));
    assert_eq!(try_parse_expression(&isa, "(1+2x*3"), Some((9, [0; 32])));
}

#[test]
fn targets_dispatch_to_their_encoders() {
    let x86 = target::x86_64();
    let arm = target::aarch64();
    assert_eq!(x86.enc_reg(0, "5"), assemble_register(&x86, 0, "5"));
    assert_eq!(arm.enc_reg(0, "5"), lib::encoder::arm::assemble_register(&arm, 0, "5"));
    assert_eq!(x86.enc_addr(1), vec![0x48, 0x8D, 0x0D]);
    assert_eq!(arm.enc_addr(3), vec![3, 0, 0, 0x10]);
    assert_eq!(x86.enc_mem(&[0x48, 0x89], 0, "r4 + 8"), vec![0x48, 0x89, 0x44, 0x24, 0x08]);
    assert_eq!(arm.enc_mem(&[0, 0, 0, 0xF9], 1, "r2 + 16"), vec![0x41, 0x08, 0x00, 0xF9]);
    assert_eq!(x86.enc_cmp("|r2| < 10").1, vec![0x0F, 0x8C]);
    assert_eq!(arm.enc_cmp("|r1| >= 5").1, vec![0x0A, 0x00, 0x00, 0x54]);
}

#[test]
fn only_register_numbers_get_coefficients() {
    let isa = target::x86_64();
    let (_, k) = parse_expression(&isa, "|r0| + 2*|r7| - |stack|");
    assert!(k[8..].iter().all(|&c| c == 0));
    assert_eq!((k[0], k[4], k[7]), (1, -1, 2));
}

#[test]
fn the_form_evaluates_like_the_expression() {
    let isa = target::x86_64();
    let (c, k) = parse_expression(&isa, "3 * (|r1| - 2) + |r2| * 4 - 5");
    let x = [0i64, 7, -3, 0, 0, 0, 0, 0];
    let value: i64 = c as i64 + (0..8).map(|i| k[i] as i64 * x[i]).sum::<i64>();
    assert_eq!(value, 3 * (7 - 2) + (-3) * 4 - 5);
}
