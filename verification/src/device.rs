//! Device identity and the mode state machine.
//!
//! A discovered device is in one of three states: running its
//! application firmware, sitting in the mask-ROM bootloader, or a
//! resettable variant driven by an external reset line.  A
//! mode-changing reboot changes the device's USB identity strings, so
//! re-acquiring the same physical device afterwards goes by its stable
//! topology — bus identifier plus hub port chain — and never by the
//! identity string.

use vstd::prelude::*;
use vstd::string::*;
use crate::packet::find_char;

verus! {

/// Vendor identifier shared by both device states.
pub const PICO_VID: u16 = 0x2E8A;

/// Product identifier of a device running application firmware.
pub const PICO_APP_PID: u16 = 0x000A;

/// Product identifier of a device in mask-ROM bootloader mode.
pub const PICO_BOOT_PID: u16 = 0x0003;

/// Which protocol a discovered device speaks.
#[derive(Clone, Copy, Debug, PartialEq, Eq, Structural)]
pub enum DeviceMode {
    /// Main firmware running; the application protocol is reachable.
    Application,
    /// Mask-ROM bootloader running; the bootloader protocol is active.
    Bootloader,
    /// An alternate device class with an external reset line instead of
    /// a software reboot command.
    Resettable,
}

/// A snapshot of one attached USB device from an enumeration sweep.
/// Snapshots are never mutated, only replaced by re-enumeration.
pub struct UsbDeviceInfo {
    pub vendor_id: u16,
    pub product_id: u16,
    /// Identity string; not stable across a mode-changing reboot.
    pub serial: Option<String>,
    /// Bus identifier: stable across the device's reboots.
    pub bus_id: String,
    /// Hub port numbers down to the device: stable across reboots.
    pub port_chain: Vec<u8>,
}

/// A classified device, carrying the stable topology alongside the
/// display identity.
pub struct DetectedDevice {
    pub mode: DeviceMode,
    pub display_name: String,
    pub device_id: String,
    pub bus_id: String,
    pub port_chain: Vec<u8>,
}

/// Why a device lookup failed.
#[derive(Clone, Copy, Debug, PartialEq, Eq, Structural)]
pub enum DeviceError {
    /// No attached device carries the requested name.
    NotFound,
    /// The device did not reappear at its topology before the deadline:
    /// distinct from a dropped packet, since the device may still be
    /// booting.
    ReacquireTimeout,
}

/// The device speaks the bootloader protocol.
pub open spec fn spec_is_bootloader(d: UsbDeviceInfo) -> bool {
    d.vendor_id == PICO_VID && d.product_id == PICO_BOOT_PID
}

/// The device speaks the application protocol.
pub open spec fn spec_is_application(d: UsbDeviceInfo) -> bool {
    d.vendor_id == PICO_VID && d.product_id == PICO_APP_PID
}

/// The device sits at this bus and port chain.  Identity strings play
/// no part in this.
pub open spec fn spec_at_location(d: UsbDeviceInfo, bus_id: Seq<char>, chain: Seq<u8>) -> bool {
    d.bus_id@ == bus_id && d.port_chain@ == chain
}

/// Classify a device by its USB identity.  The resettable class is not
/// told apart by identity alone; a caller with knowledge of the reset
/// hardware assigns it.
pub fn classify_device(vendor_id: u16, product_id: u16) -> (r: Option<DeviceMode>)
    ensures
        match r {
            Some(m) => (m == DeviceMode::Application <==> (vendor_id == PICO_VID && product_id
                == PICO_APP_PID)) && (m == DeviceMode::Bootloader <==> (vendor_id == PICO_VID
                && product_id == PICO_BOOT_PID)) && !(m == DeviceMode::Resettable),
            None => !(vendor_id == PICO_VID && (product_id == PICO_APP_PID || product_id
                == PICO_BOOT_PID)),
        },
{
    if vendor_id == PICO_VID && product_id == PICO_APP_PID {
        Some(DeviceMode::Application)
    } else if vendor_id == PICO_VID && product_id == PICO_BOOT_PID {
        Some(DeviceMode::Bootloader)
    } else {
        None
    }
}

/// Split a USB serial string into the device identifier and, when one
/// is carried after a colon, the device name.  Older firmware reports
/// the identifier alone.
pub fn parse_serial_string(serial: &str) -> (r: (String, Option<String>))
    ensures
        match serial@.index_of_first(':') {
            Some(i) => r.0@ == serial@.take(i) && r.1 is Some && r.1->0@ == serial@.skip(i + 1),
            None => r.0@ == serial@ && r.1 is None,
        },
{
    let n = serial.unicode_len();
    match find_char(serial, ':') {
        Some(i) => {
            proof {
                serial@.index_of_first_ensures(':');
            }
            let device_id = String::from_str(serial.substring_char(0, i));
            let name = String::from_str(serial.substring_char(i + 1, n));
            proof {
                assert(device_id@ =~= serial@.take(i as int));
                assert(name@ =~= serial@.skip(i as int + 1));
            }
            (device_id, Some(name))
        }
        None => (String::from_str(serial), None),
    }
}

/// The device's serial string names this device: the part after the
/// colon equals the name.
pub open spec fn spec_named(d: UsbDeviceInfo, name: Seq<char>) -> bool {
    match d.serial {
        Some(s) => match s@.index_of_first(':') {
            Some(i) => s@.skip(i + 1) == name,
            None => false,
        },
        None => false,
    }
}

/// Byte-wise equality of two port chains.
fn chains_equal(a: &Vec<u8>, b: &Vec<u8>) -> (r: bool)
    ensures
        r == (a@ =~= b@),
{
    if a.len() != b.len() {
        return false;
    }
    let mut i: usize = 0;
    while i < a.len()
        invariant
            0 <= i <= a@.len(),
            a@.len() == b@.len(),
            forall|j: int| 0 <= j < i ==> a@[j] == b@[j],
        decreases a@.len() - i,
    {
        if a[i] != b[i] {
            return false;
        }
        i = i + 1;
    }
    true
}

/// Find a bootloader-mode device at a fixed bus and port chain.  Only
/// topology is consulted: the identity string a device reports there is
/// free to have changed across the reboot.
pub fn find_bootloader_at_location(
    devices: &Vec<UsbDeviceInfo>,
    bus_id: &String,
    port_chain: &Vec<u8>,
) -> (r: Option<usize>)
    ensures
        match r {
            Some(i) => 0 <= i < devices@.len() && spec_is_bootloader(devices@[i as int])
                && spec_at_location(devices@[i as int], bus_id@, port_chain@),
            None => forall|i: int|
                0 <= i < devices@.len() ==> !(spec_is_bootloader(#[trigger] devices@[i])
                    && spec_at_location(devices@[i], bus_id@, port_chain@)),
        },
{
    let mut i: usize = 0;
    while i < devices.len()
        invariant
            0 <= i <= devices@.len(),
            forall|j: int|
                0 <= j < i ==> !(spec_is_bootloader(#[trigger] devices@[j]) && spec_at_location(
                    devices@[j],
                    bus_id@,
                    port_chain@,
                )),
        decreases devices@.len() - i,
    {
        let d = &devices[i];
        if d.vendor_id == PICO_VID && d.product_id == PICO_BOOT_PID && d.bus_id.eq(bus_id)
            && chains_equal(&d.port_chain, port_chain) {
            return Some(i);
        }
        i = i + 1;
    }
    None
}

/// Find any device at a fixed bus and port chain, whatever mode it
/// woke up in: used after a post-flash reboot, when the reappearing
/// device runs application firmware again.
pub fn find_device_at_location(
    devices: &Vec<UsbDeviceInfo>,
    bus_id: &String,
    port_chain: &Vec<u8>,
) -> (r: Option<usize>)
    ensures
        match r {
            Some(i) => 0 <= i < devices@.len() && spec_at_location(
                devices@[i as int],
                bus_id@,
                port_chain@,
            ),
            None => forall|i: int|
                0 <= i < devices@.len() ==> !spec_at_location(
                    #[trigger] devices@[i],
                    bus_id@,
                    port_chain@,
                ),
        },
{
    let mut i: usize = 0;
    while i < devices.len()
        invariant
            0 <= i <= devices@.len(),
            forall|j: int|
                0 <= j < i ==> !spec_at_location(#[trigger] devices@[j], bus_id@, port_chain@),
        decreases devices@.len() - i,
    {
        let d = &devices[i];
        if d.bus_id.eq(bus_id) && chains_equal(&d.port_chain, port_chain) {
            return Some(i);
        }
        i = i + 1;
    }
    None
}

/// The outcome of one poll for a rebooted device.
pub enum PollOutcome {
    /// A bootloader device stands at the expected topology.
    Found(usize),
    /// Nothing there yet and time remains: sleep and re-enumerate.
    KeepWaiting,
    /// Nothing there and the deadline has passed.  The device may still
    /// be booting; a caller may choose to re-check.
    TimedOut,
}

/// Decide one poll of the reboot-to-bootloader transition: enumerate,
/// look for a bootloader device at the old topology, and either finish,
/// keep polling, or give up at the deadline.
pub fn poll_bootloader_step(
    devices: &Vec<UsbDeviceInfo>,
    bus_id: &String,
    port_chain: &Vec<u8>,
    deadline_passed: bool,
) -> (r: PollOutcome)
    ensures
        match r {
            PollOutcome::Found(i) => 0 <= i < devices@.len() && spec_is_bootloader(
                devices@[i as int],
            ) && spec_at_location(devices@[i as int], bus_id@, port_chain@),
            PollOutcome::KeepWaiting => !deadline_passed && forall|i: int|
                0 <= i < devices@.len() ==> !(spec_is_bootloader(#[trigger] devices@[i])
                    && spec_at_location(devices@[i], bus_id@, port_chain@)),
            PollOutcome::TimedOut => deadline_passed && forall|i: int|
                0 <= i < devices@.len() ==> !(spec_is_bootloader(#[trigger] devices@[i])
                    && spec_at_location(devices@[i], bus_id@, port_chain@)),
        },
{
    match find_bootloader_at_location(devices, bus_id, port_chain) {
        Some(i) => PollOutcome::Found(i),
        None => {
            if deadline_passed {
                PollOutcome::TimedOut
            } else {
                PollOutcome::KeepWaiting
            }
        }
    }
}

/// What a device must be asked to do to reach the bootloader.
#[derive(Clone, Copy, Debug, PartialEq, Eq, Structural)]
pub enum RebootAction {
    /// Send the application-protocol reboot-to-bootloader request; the
    /// device then vanishes from the bus without replying.
    SendBootRequest,
    /// Drive the external reset mechanism.
    DriveResetLine,
    /// Nothing: the device is already in the bootloader.
    AlreadyInBootloader,
}

/// The transition action out of each mode towards the bootloader.
/// After the action, the device is re-acquired by polling its topology.
pub fn bootloader_transition_action(mode: DeviceMode) -> (r: RebootAction)
    ensures
        mode == DeviceMode::Application ==> r == RebootAction::SendBootRequest,
        mode == DeviceMode::Resettable ==> r == RebootAction::DriveResetLine,
        mode == DeviceMode::Bootloader ==> r == RebootAction::AlreadyInBootloader,
{
    match mode {
        DeviceMode::Application => RebootAction::SendBootRequest,
        DeviceMode::Resettable => RebootAction::DriveResetLine,
        DeviceMode::Bootloader => RebootAction::AlreadyInBootloader,
    }
}

/// The stable topology of the first application-mode device whose
/// serial names this device: bus identifier and port chain.  Only
/// application-protocol devices are considered; the serial string of
/// some unrelated USB device never captures the match.
pub fn get_device_location(devices: &Vec<UsbDeviceInfo>, name: &str) -> (r: Result<
    (String, Vec<u8>),
    DeviceError,
>)
    ensures
        match r {
            Ok(loc) => exists|i: int|
                {
                    &&& 0 <= i < devices@.len()
                    &&& spec_is_application(#[trigger] devices@[i])
                    &&& spec_named(devices@[i], name@)
                    &&& (forall|j: int|
                        0 <= j < i ==> !(spec_is_application(#[trigger] devices@[j])
                            && spec_named(devices@[j], name@)))
                    &&& loc.0@ == devices@[i].bus_id@
                    &&& loc.1@ == devices@[i].port_chain@
                },
            Err(e) => e == DeviceError::NotFound && forall|i: int|
                0 <= i < devices@.len() ==> !(spec_is_application(#[trigger] devices@[i])
                    && spec_named(devices@[i], name@)),
        },
{
    let mut i: usize = 0;
    while i < devices.len()
        invariant
            0 <= i <= devices@.len(),
            forall|j: int|
                0 <= j < i ==> !(spec_is_application(#[trigger] devices@[j]) && spec_named(
                    devices@[j],
                    name@,
                )),
        decreases devices@.len() - i,
    {
        let d = &devices[i];
        if d.vendor_id == PICO_VID && d.product_id == PICO_APP_PID {
            match &d.serial {
                Some(serial) => {
                    let (_, parsed_name) = parse_serial_string(serial.as_str());
                    match parsed_name {
                        Some(n) => {
                            let wanted = String::from_str(name);
                            if n.eq(&wanted) {
                                proof {
                                    assert(spec_named(devices@[i as int], name@));
                                }
                                let mut chain: Vec<u8> = Vec::new();
                                chain.extend_from_slice(d.port_chain.as_slice());
                                proof {
                                    assert(chain@ =~= devices@[i as int].port_chain@);
                                }
                                return Ok((d.bus_id.clone(), chain));
                            }
                        }
                        None => {}
                    }
                }
                None => {}
            }
            proof {
                assert(!spec_named(devices@[i as int], name@));
            }
        }
        i = i + 1;
    }
    Err(DeviceError::NotFound)
}

/// Re-acquisition does not depend on identity strings: over two
/// enumeration snapshots that agree on USB identities and topology but
/// may disagree on every serial string, the same devices match a fixed
/// bus and port chain.
pub proof fn lemma_reacquire_ignores_identity(
    before: Seq<UsbDeviceInfo>,
    after: Seq<UsbDeviceInfo>,
    bus_id: Seq<char>,
    chain: Seq<u8>,
)
    requires
        before.len() == after.len(),
        forall|i: int|
            0 <= i < before.len() ==> (#[trigger] before[i]).vendor_id == after[i].vendor_id
                && before[i].product_id == after[i].product_id && before[i].bus_id@
                == after[i].bus_id@ && before[i].port_chain@ == after[i].port_chain@,
    ensures
        forall|i: int|
            0 <= i < before.len() ==> ((spec_is_bootloader(#[trigger] before[i])
                && spec_at_location(before[i], bus_id, chain)) <==> (spec_is_bootloader(after[i])
                && spec_at_location(after[i], bus_id, chain))),
{
}

} // verus!
