use lib::encoder::{arm, assemble_register};
use lib::target;

/// Runs the x86-64 instructions that register loads use, on registers 0 to 7.
fn run_x86(code: &[u8], regs: &mut [u64; 8]) {
    let mut i = 0;
    while i < code.len() {
        assert_eq!(code[i], 0x48);
        let op = code[i + 1];
        let m = code[i + 2];
        assert_eq!(m >> 6, 3);
        let reg = ((m >> 3) & 7) as usize;
        let rm = (m & 7) as usize;
        let imm = || i32::from_le_bytes([code[i + 3], code[i + 4], code[i + 5], code[i + 6]]) as i64 as u64;
        match op {
            0x01 => { regs[rm] = regs[rm].wrapping_add(regs[reg]); i += 3; }
            0x29 => { regs[rm] = regs[rm].wrapping_sub(regs[reg]); i += 3; }
            0xC7 => { regs[rm] = imm(); i += 7; }
            0x69 => { regs[reg] = regs[rm].wrapping_mul(imm()); i += 7; }
            0x81 => { regs[rm] = regs[rm].wrapping_add(imm()); i += 7; }
            _ => panic!("unexpected opcode {op:#x}"),
        }
    }
}

/// Runs the AArch64 instructions that register loads use, on registers 0 to 30.
fn run_arm(code: &[u8], regs: &mut [u64; 32]) {
    for word in code.chunks(4) {
        let w = u32::from_le_bytes([word[0], word[1], word[2], word[3]]);
        let rd = (w & 31) as usize;
        let rn = ((w >> 5) & 31) as usize;
        let rm = ((w >> 16) & 31) as usize;
        let imm16 = ((w >> 5) & 0xFFFF) as u64;
        let imm12 = ((w >> 10) & 0xFFF) as u64;
        if w & 0xFFE0_0000 == 0x9280_0000 {
            regs[rd] = !imm16;
        } else if w & 0xFFE0_0000 == 0xD280_0000 {
            regs[rd] = imm16;
        } else if w & 0xFFE0_0000 == 0xF2A0_0000 {
            regs[rd] = (regs[rd] & !0xFFFF_0000) | (imm16 << 16);
        } else if w & 0xFFE0_FC00 == 0x9B00_7C00 {
            regs[rd] = regs[rn].wrapping_mul(regs[rm]);
        } else if w & 0xFFC0_0000 == 0x9100_0000 {
            regs[rd] = regs[rn].wrapping_add(imm12);
        } else if w & 0xFFC0_0000 == 0xD100_0000 {
            regs[rd] = regs[rn].wrapping_sub(imm12);
        } else if w & 0xFFE0_FC00 == 0x8B00_0000 {
            regs[rd] = regs[rn].wrapping_add(regs[rm]);
        } else if w & 0xFFE0_FC00 == 0xCB00_0000 {
            regs[rd] = regs[rn].wrapping_sub(regs[rm]);
        } else {
            panic!("unexpected word {w:#x}");
        }
    }
}

#[test]
fn x86_loads_compute_their_expressions() {
    let isa = target::x86_64();
    let start = [10u64, 5, 7, 4, 0, 0, 0, 0];

    let mut regs = start;
    run_x86(&assemble_register(&isa, 0, "3*|r1| + |r2| - 2"), &mut regs);
    assert_eq!(regs[0], 20);
    assert_eq!(&regs[1..], &start[1..]);

    let mut regs = start;
    run_x86(&assemble_register(&isa, 0, "2*|r0| + 1"), &mut regs);
    assert_eq!(regs[0], 21);

    let mut regs = start;
    run_x86(&assemble_register(&isa, 6, "0 - |r3|"), &mut regs);
    assert_eq!(regs[6], (-4i64) as u64);
    assert_eq!(&regs[..6], &start[..6]);
}

#[test]
fn aarch64_loads_compute_their_expressions() {
    let isa = target::aarch64();
    let mut start = [0u64; 32];
    start[0] = 10;
    start[1] = 5;
    start[2] = 7;
    start[9] = 99;

    let mut regs = start;
    run_arm(&arm::assemble_register(&isa, 0, "3*|r1| + |r2| - 2"), &mut regs);
    assert_eq!(regs[0], 20);
    assert_eq!(&regs[1..9], &start[1..9]);

    let mut regs = start;
    run_arm(&arm::assemble_register(&isa, 0, "2*|r0| + 1"), &mut regs);
    assert_eq!(regs[0], 21);

    let mut regs = start;
    run_arm(&arm::assemble_register(&isa, 3, "70000"), &mut regs);
    assert_eq!(regs[3], 70000);

    let mut regs = start;
    run_arm(&arm::assemble_register(&isa, 3, "0 - 5"), &mut regs);
    assert_eq!(regs[3], (-5i64) as u64);
}
