use picorom::embedded::parse_firmware_name;

#[test]
fn test_parse_firmware_name() {
    assert_eq!(parse_firmware_name("PicoROM-2MBit-1_7.bin"), "2MBit v1.7");
    assert_eq!(
        parse_firmware_name("PicoROM-2MBit_100ns-1_7.bin"),
        "2MBit_100ns v1.7"
    );
    assert_eq!(
        parse_firmware_name("PicoROM-32P_2MBit-1_7_3.bin"),
        "32P_2MBit v1.7.3"
    );
    assert_eq!(parse_firmware_name("other.bin"), "other.bin");
}

#[test]
fn firmware_name_without_extension_kept() {
    assert_eq!(parse_firmware_name("README"), "README");
    assert_eq!(parse_firmware_name(""), "");
    assert_eq!(parse_firmware_name("PicoROM-only_one_dash.bin"), "PicoROM-only_one_dash.bin");
    assert_eq!(parse_firmware_name("OtherROM-2MBit-1_7.bin"), "OtherROM-2MBit-1_7.bin");
}
