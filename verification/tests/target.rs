use lib::target;

#[test]
fn targets_have_distinct_machines() {
    let mut seen = std::collections::HashSet::new();
    for isa in target::all() {
        assert!(seen.insert(isa.MACHINE), "{} duplicates a machine id", isa.NAME);
    }
}

#[test]
fn target_names_and_aliases() {
    assert_eq!(target::get("x86").NAME, "x86_64");
    assert_eq!(target::get("  AMD64 ").NAME, "x86_64");
    assert_eq!(target::get("x64").MACHINE, 0x3e);
    assert_eq!(target::get("ARM").NAME, "aarch64");
    assert_eq!(target::get("aarch64").MACHINE, 0xb7);
    assert!(target::find("mips").is_none());
    assert!(target::find("").is_none());
}

#[test]
fn register_names() {
    let x86 = target::x86_64();
    assert_eq!(x86.reg("r0"), 0);
    assert_eq!(x86.reg(" |r7| "), 7);
    assert_eq!(x86.reg("stack"), 4);
    let arm = target::aarch64();
    assert_eq!(arm.reg("r7"), 8);
    assert_eq!(arm.reg("|stack|"), 31);
    assert_eq!(arm.reg("r31"), 31);
    let name: Vec<char> = "r9".chars().collect();
    assert_eq!(x86.reg_of(&name, 0, 2), None);
}

#[test]
fn x86_relative_fields() {
    let mut out = vec![0u8; 16];
    target::patch_x86(&mut out, 5, 0);
    assert_eq!(&out[5..9], &(-9i32).to_le_bytes());
    assert_eq!(&out[..5], &[0; 5]);
    assert_eq!(&out[9..], &[0; 7]);
    let mut out = vec![0xE9, 0, 0, 0, 0, 0xC3];
    target::x86_64().patch(&mut out, 0, 1, 5);
    assert_eq!(out, vec![0xE9, 0, 0, 0, 0, 0xC3]);
}

#[test]
fn aarch64_branches_and_addresses() {
    let arm = target::aarch64();
    // B backwards by two instructions
    let mut out = vec![0, 0, 0, 0, 0, 0, 0, 0, 0x00, 0x00, 0x00, 0x14];
    arm.patch(&mut out, 8, 8, 0);
    assert_eq!(&out[8..12], &0x17FF_FFFEu32.to_le_bytes());
    // B.cond forwards by four instructions
    let mut out = vec![0x00, 0x00, 0x00, 0x54];
    target::patch_aarch64(&mut out, 0, 16);
    assert_eq!(out, 0x5400_0080u32.to_le_bytes().to_vec());
    // ADR of the byte six ahead
    let mut out = vec![0x00, 0x00, 0x00, 0x10];
    target::patch_aarch64(&mut out, 0, 6);
    assert_eq!(out, 0x5000_0020u32.to_le_bytes().to_vec());
}

#[test]
fn x86_names_agree_with_the_byte_stream() {
    let x86 = target::x86_64();
    for name in ["r0", "r1", "r2", "r3", "r4", "r5", "r6", "r7", " |r2| "] {
        assert_eq!(x86.reg(name), lib::common::reg(name));
    }
}
