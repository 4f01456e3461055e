use picorom::device::{
    bootloader_transition_action, classify_device, find_bootloader_at_location,
    find_device_at_location, get_device_location, parse_serial_string, poll_bootloader_step,
    DeviceError, DeviceMode, PollOutcome, RebootAction, UsbDeviceInfo,
};

fn device(pid: u16, serial: Option<&str>, bus: &str, chain: &[u8]) -> UsbDeviceInfo {
    UsbDeviceInfo {
        vendor_id: 0x2E8A,
        product_id: pid,
        serial: serial.map(String::from),
        bus_id: String::from(bus),
        port_chain: chain.to_vec(),
    }
}

#[test]
fn classification_by_usb_identity() {
    assert_eq!(classify_device(0x2E8A, 0x000A), Some(DeviceMode::Application));
    assert_eq!(classify_device(0x2E8A, 0x0003), Some(DeviceMode::Bootloader));
    assert_eq!(classify_device(0x2E8A, 0x1234), None);
    assert_eq!(classify_device(0x1234, 0x000A), None);
}

#[test]
fn serial_string_with_and_without_name() {
    let (id, name) = parse_serial_string("E660C06213");
    assert_eq!(id, "E660C06213");
    assert_eq!(name, None);
    let (id, name) = parse_serial_string("E660C06213:kickboard");
    assert_eq!(id, "E660C06213");
    assert_eq!(name.as_deref(), Some("kickboard"));
}

#[test]
fn reacquisition_ignores_identity_strings() {
    // Before the reboot the device reported one serial; after, the
    // bootloader reports an entirely different one.  The device is
    // still found, because only bus and port chain are consulted.
    let after_reboot = vec![
        device(0x0003, Some("totally-different-serial"), "usb1", &[1, 4]),
        device(0x000A, Some("old:name"), "usb1", &[2]),
    ];
    let found = find_bootloader_at_location(
        &after_reboot,
        &String::from("usb1"),
        &vec![1, 4],
    );
    assert_eq!(found, Some(0));
    // A device with no serial at all is found just the same.
    let nameless = vec![device(0x0003, None, "usb1", &[1, 4])];
    assert_eq!(
        find_bootloader_at_location(&nameless, &String::from("usb1"), &vec![1, 4]),
        Some(0)
    );
    // A different port chain is a different physical port.
    assert_eq!(
        find_bootloader_at_location(&after_reboot, &String::from("usb1"), &vec![1, 5]),
        None
    );
}

#[test]
fn polling_gives_up_only_at_the_deadline() {
    let nothing: Vec<UsbDeviceInfo> = vec![];
    match poll_bootloader_step(&nothing, &String::from("usb1"), &vec![1], false) {
        PollOutcome::KeepWaiting => {}
        _ => panic!("time remains: keep polling"),
    }
    match poll_bootloader_step(&nothing, &String::from("usb1"), &vec![1], true) {
        PollOutcome::TimedOut => {}
        _ => panic!("deadline passed: report the timeout"),
    }
    let there = vec![device(0x0003, None, "usb1", &[1])];
    match poll_bootloader_step(&there, &String::from("usb1"), &vec![1], true) {
        PollOutcome::Found(0) => {}
        _ => panic!("the device is there"),
    }
}

#[test]
fn transition_actions_per_mode() {
    assert_eq!(
        bootloader_transition_action(DeviceMode::Application),
        RebootAction::SendBootRequest
    );
    assert_eq!(
        bootloader_transition_action(DeviceMode::Resettable),
        RebootAction::DriveResetLine
    );
    assert_eq!(
        bootloader_transition_action(DeviceMode::Bootloader),
        RebootAction::AlreadyInBootloader
    );
}

#[test]
fn location_lookup_goes_by_name() {
    let devices = vec![
        device(0x000A, Some("id1:alpha"), "usb1", &[2]),
        device(0x000A, Some("id2:beta"), "usb2", &[3, 1]),
    ];
    let (bus, chain) = get_device_location(&devices, "beta").unwrap();
    assert_eq!(bus, "usb2");
    assert_eq!(chain, vec![3, 1]);
    assert_eq!(
        get_device_location(&devices, "gamma").unwrap_err(),
        DeviceError::NotFound
    );
}

#[test]
fn post_flash_reacquire_matches_any_mode() {
    // After the post-flash reboot the device reappears in application
    // mode; matching by topology finds it whatever mode it woke up in.
    let devices = vec![device(0x000A, Some("new:name"), "usb1", &[1, 4])];
    assert_eq!(
        find_device_at_location(&devices, &String::from("usb1"), &vec![1, 4]),
        Some(0)
    );
    assert_eq!(
        find_device_at_location(&devices, &String::from("usb2"), &vec![1, 4]),
        None
    );
}

#[test]
fn location_lookup_ignores_foreign_devices() {
    // A stray USB device whose serial happens to carry a colon-name
    // must never capture the match: only application-mode PicoROM
    // devices are searched.
    let foreign = UsbDeviceInfo {
        vendor_id: 0x1234,
        product_id: 0x5678,
        serial: Some(String::from("id9:beta")),
        bus_id: String::from("usb9"),
        port_chain: vec![9],
    };
    let devices = vec![foreign];
    assert_eq!(
        get_device_location(&devices, "beta").unwrap_err(),
        DeviceError::NotFound
    );
    // With the real device present too, the real one wins whatever the
    // order.
    let foreign2 = UsbDeviceInfo {
        vendor_id: 0x1234,
        product_id: 0x5678,
        serial: Some(String::from("id9:beta")),
        bus_id: String::from("usb9"),
        port_chain: vec![9],
    };
    let devices = vec![foreign2, device(0x000A, Some("id1:beta"), "usb2", &[3, 1])];
    let (bus, chain) = get_device_location(&devices, "beta").unwrap();
    assert_eq!(bus, "usb2");
    assert_eq!(chain, vec![3, 1]);
    // A bootloader-mode device is not searched either: its serial is
    // not the application identity.
    let devices = vec![device(0x0003, Some("idX:beta"), "usb3", &[7])];
    assert_eq!(
        get_device_location(&devices, "beta").unwrap_err(),
        DeviceError::NotFound
    );
}
