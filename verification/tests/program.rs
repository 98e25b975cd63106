use lib::bytestream::ByteStream;
use lib::program::{assemble, strip_parenthesis, try_assemble};

#[test]
fn brackets_are_stripped() {
    assert_eq!(strip_parenthesis("[r4]", ('[', ']')), "r4");
    assert_eq!(strip_parenthesis("[[r4]]", ('[', ']')), "r4");
    assert_eq!(strip_parenthesis("r4", ('[', ']')), "r4");
    assert_eq!(strip_parenthesis("]r4[", ('[', ']')), "]r4[");
    assert_eq!(strip_parenthesis("[]", ('[', ']')), "");
}

#[test]
fn a_program_is_assembled_statement_by_statement() {
    let source = "
        rg r5 50+3;
        rg r0 123 - |r5|;
        store [r4] r0;
        load r6 [r4];
        syscall 60
    ";
    let image = assemble(source).image();

    let mut expected = ByteStream::new();
    expected.process_register("r5", "50+3");
    expected.process_register("r0", "123-|r5|");
    expected.process_store("r4", "r0");
    expected.process_load("r6", "r4");
    expected.process_syscall("60");
    assert_eq!(image, expected.image());

    assert_eq!(
        &image[120..],
        &[
            0x48, 0xC7, 0xC5, 53, 0, 0, 0, // mov r5, 53
            0x48, 0xC7, 0xC0, 123, 0, 0, 0, 0x48, 0x29, 0xE8, // r0 = 123 - r5
            0x48, 0x89, 0x04, 0x24, // store
            0x48, 0x8B, 0x34, 0x24, // load
            0x48, 0xC7, 0xC0, 60, 0, 0, 0, 0x0F, 0x05, // syscall 60
        ]
    );
}

#[test]
fn unknown_statements_are_skipped() {
    let a = assemble("nop 1 2; rg r1 7;").image();
    let b = assemble("rg r1 7").image();
    assert_eq!(a, b);
}

#[test]
fn programs_that_do_not_assemble() {
    // register names outside r0..r7
    assert!(try_assemble("rg rbp 50+3; syscall 60").is_none());
    // an empty statement has no keyword
    assert!(try_assemble("rg r1 1;; rg r2 2").is_none());
    // a missing operand
    assert!(try_assemble("load r1").is_none());
    assert!(try_assemble("syscall").is_none());
    // an expression that does not parse
    assert!(try_assemble("rg r1 5/0").is_none());
    assert!(try_assemble("rg r1 7;").is_some());
    // an empty program has no statement at all
    assert_eq!(try_assemble("  ").unwrap().image().len(), 120);
    assert_eq!(try_assemble("rg r1 7").unwrap().image(), assemble("rg r1 7").image());
}
