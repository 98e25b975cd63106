use lib::bytestream::ByteStream;
use lib::common::{modrm, reg, REGS};

#[test]
fn stream_starts_with_headers() {
    let s = ByteStream::new();
    let image = s.image();
    assert_eq!(image.len(), 120);
    assert_eq!(&image[0..4], &[0x7f, b'E', b'L', b'F']);
    assert_eq!(&image[24..32], &(0x400000u64 + 0x78).to_le_bytes());
    assert_eq!(&image[56..58], &[1, 0]);
    assert_eq!(&image[96..104], &120u64.to_le_bytes());
}

#[test]
fn statements_are_appended() {
    let mut s = ByteStream::new();
    s.process_register("r0", "5");
    s.process_store("r4", "r0");
    s.process_load("r6", "r4");
    s.process_syscall("60");
    let image = s.image();
    assert_eq!(
        &image[120..],
        &[
            0x48, 0xC7, 0xC0, 5, 0, 0, 0, 0x48, 0x89, 0x04, 0x24, 0x48, 0x8B, 0x34, 0x24, 0x48,
            0xC7, 0xC0, 60, 0, 0, 0, 0x0F, 0x05,
        ]
    );
    assert_eq!(&image[104..112], &(image.len() as u64).to_le_bytes());
}

#[test]
fn modrm_fields() {
    assert_eq!(modrm(3, 0, 2), 0xC2);
    assert_eq!(modrm(1, 3, 4), 0x5C);
}

#[test]
fn byte_stream_registers() {
    assert_eq!(REGS::from_str("r3"), Some(REGS::R3));
    assert_eq!(REGS::from_str("rax"), None);
    assert_eq!(reg(" |r5| "), 5);
}

#[test]
fn the_image_keeps_the_code() {
    let mut s = ByteStream::new();
    s.process_register("r1", "7");
    s.process_syscall("1");
    let image = s.image();
    assert_eq!(image.len(), 120 + 7 + 9);
    assert_eq!(&image[120..127], &[0x48, 0xC7, 0xC1, 7, 0, 0, 0]);
    assert_eq!(&image[..24], &ByteStream::new().image()[..24]);
    assert_eq!(&image[96..104], &136u64.to_le_bytes());
    assert_eq!(&image[104..112], &136u64.to_le_bytes());
}
