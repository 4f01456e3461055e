use picorom::hex::{parse_hex_usize, trim_spaces, u32_to_hex};
use picorom::rom_size::RomSize;

#[test]
fn sizes_from_byte_counts() {
    match RomSize::from_bytes(256 * 1024) {
        Some(RomSize::MBit(2)) => {}
        other => panic!("256 KiB is 2 MBit, got {:?}", other),
    }
    match RomSize::from_bytes(8 * 1024) {
        Some(RomSize::KBit(64)) => {}
        other => panic!("8 KiB is 64 KBit, got {:?}", other),
    }
    assert!(RomSize::from_bytes(100).is_none());
    assert!(RomSize::from_bytes(0).is_none());
}

#[test]
fn bytes_and_mask() {
    assert_eq!(RomSize::MBit(2).bytes(), 256 * 1024);
    assert_eq!(RomSize::KBit(64).bytes(), 8 * 1024);
    assert_eq!(RomSize::MBit(2).mask(), 0x3FFFF);
    assert_eq!(RomSize::KBit(8).mask(), 0x3FF);
}

#[test]
fn sizes_from_hex_strings() {
    match RomSize::from_hex_bytes("0x00040000") {
        Some(RomSize::MBit(2)) => {}
        other => panic!("0x40000 bytes is 2 MBit, got {:?}", other),
    }
    match RomSize::from_hex_bytes("  2000 \n") {
        Some(RomSize::KBit(64)) => {}
        other => panic!("0x2000 bytes is 64 KBit, got {:?}", other),
    }
    assert!(RomSize::from_hex_bytes("0x").is_none());
    assert!(RomSize::from_hex_bytes("zz").is_none());
    assert!(RomSize::from_hex_bytes("").is_none());
}

#[test]
fn standard_sizes_cover_the_range() {
    let sizes = RomSize::standard_sizes();
    let expected = [
        (true, 2usize),
        (true, 1),
        (false, 512),
        (false, 256),
        (false, 128),
        (false, 64),
        (false, 32),
        (false, 16),
        (false, 8),
    ];
    assert_eq!(sizes.len(), expected.len());
    for (size, (mbit, count)) in sizes.iter().zip(expected) {
        match size {
            RomSize::MBit(x) => assert!(mbit && *x == count),
            RomSize::KBit(x) => assert!(!mbit && *x == count),
        }
    }
    assert_eq!(sizes[0].bytes(), 256 * 1024);
    assert_eq!(sizes[8].bytes(), 1024);
}

#[test]
fn hex_formatting() {
    assert_eq!(u32_to_hex(0x3FFFF), "0x3ffff");
    assert_eq!(u32_to_hex(0), "0x0");
    assert_eq!(u32_to_hex(0xDEADBEEF), "0xdeadbeef");
}

#[test]
fn hex_parsing() {
    assert_eq!(parse_hex_usize("3ffff"), Some(0x3FFFF));
    assert_eq!(parse_hex_usize("0"), Some(0));
    assert_eq!(parse_hex_usize("FF"), Some(255));
    assert_eq!(parse_hex_usize(""), None);
    assert_eq!(parse_hex_usize("12g4"), None);
}

#[test]
fn trimming() {
    assert_eq!(trim_spaces("  0x1000\r\n"), "0x1000");
    assert_eq!(trim_spaces("plain"), "plain");
    assert_eq!(trim_spaces("  \t "), "");
}
