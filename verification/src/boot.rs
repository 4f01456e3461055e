//! Bootloader command protocol.
//!
//! A device in mask-ROM bootloader mode takes fixed 32-byte command
//! packets: a magic word, a monotonically increasing token, a command
//! identifier whose high bit gives the data direction, the argument
//! length, two reserved bytes, a 4-byte transfer length, and up to 16
//! bytes of inline arguments.  Command status is read back separately;
//! a non-zero status code is a command failure.  Building the packets
//! and judging alignment preconditions is pure; sending them is not and
//! lives with the transport.

use vstd::prelude::*;
use vstd::bytes::*;

verus! {

/// Smallest erasable unit of the target flash.
pub const FLASH_SECTOR_SIZE: u32 = 4096;

/// Smallest writable unit of the target flash.
pub const FLASH_PAGE_SIZE: u32 = 256;

/// Magic word opening every bootloader command packet.
pub const PICOBOOT_MAGIC: u32 = 0x431FD10B;

pub const CMD_EXCLUSIVE_ACCESS: u8 = 0x01;
pub const CMD_REBOOT: u8 = 0x02;
pub const CMD_FLASH_ERASE: u8 = 0x03;
pub const CMD_READ: u8 = 0x84;
pub const CMD_WRITE: u8 = 0x05;
pub const CMD_EXIT_XIP: u8 = 0x06;

/// Why a bootloader operation was refused or failed.
#[derive(Clone, Copy, Debug, PartialEq, Eq, Structural)]
pub enum BootError {
    /// An erase or write was asked for at an address or size that does
    /// not meet the flash alignment rules; nothing was sent.
    Misaligned,
    /// The device reported a non-zero status code after a command.
    CommandFailed(u32),
    /// A status response was too short to carry a status code.
    StatusTooShort,
}

/// The 32-byte command packet for a token, command identifier, inline
/// arguments and transfer length.
pub open spec fn spec_boot_cmd(token: u32, cmd_id: u8, args: Seq<u8>, transfer_len: u32) -> Seq<
    u8,
>
    recommends
        args.len() <= 16,
{
    spec_u32_to_le_bytes(PICOBOOT_MAGIC) + spec_u32_to_le_bytes(token) + seq![
        cmd_id,
        args.len() as u8,
        0u8,
        0u8,
    ] + spec_u32_to_le_bytes(transfer_len) + args + Seq::new((16 - args.len()) as nat, |q: int| 0u8)
}

/// The host side of a bootloader session: the command token, which
/// every command consumes, acknowledged or not, so that responses can
/// be correlated.
pub struct BootClient {
    pub token: u32,
}

impl BootClient {
    /// A fresh session; the first command carries token 1.
    pub fn new() -> (r: BootClient)
        ensures
            r.token == 1,
    {
        BootClient { token: 1 }
    }

    /// Build the 32-byte packet for one command and advance the token.
    pub fn build_cmd(&mut self, cmd_id: u8, args: &Vec<u8>, transfer_len: u32) -> (r: Vec<u8>)
        requires
            old(self).token < u32::MAX,
            args@.len() <= 16,
        ensures
            final(self).token == old(self).token + 1,
            r@ == spec_boot_cmd(old(self).token, cmd_id, args@, transfer_len),
            r@.len() == 32,
    {
        let mut cmd = u32_to_le_bytes(PICOBOOT_MAGIC);
        let mut token_bytes = u32_to_le_bytes(self.token);
        cmd.append(&mut token_bytes);
        cmd.push(cmd_id);
        cmd.push(args.len() as u8);
        cmd.push(0u8);
        cmd.push(0u8);
        let mut len_bytes = u32_to_le_bytes(transfer_len);
        cmd.append(&mut len_bytes);
        cmd.extend_from_slice(args.as_slice());
        let ghost base = cmd@;
        while cmd.len() < 32
            invariant
                base.len() == 16 + args@.len(),
                args@.len() <= 16,
                base.len() <= cmd@.len() <= 32,
                cmd@.take(base.len() as int) == base,
                forall|q: int| base.len() <= q < cmd@.len() ==> cmd@[q] == 0u8,
            decreases 32 - cmd@.len(),
        {
            cmd.push(0u8);
            assert(cmd@.take(base.len() as int) =~= base);
        }
        self.token = self.token + 1;
        proof {
            let full = spec_boot_cmd(old(self).token, cmd_id, args@, transfer_len);
            assert(base =~= full.take(base.len() as int));
            assert forall|q: int| 0 <= q < 32 implies cmd@[q] == full[q] by {
                if q < base.len() {
                    assert(cmd@.take(base.len() as int)[q] == cmd@[q]);
                    assert(full.take(base.len() as int)[q] == full[q]);
                } else {
                    assert(full[q] == 0u8);
                }
            }
            assert(cmd@ =~= full);
        }
        cmd
    }

    /// Build the erase command for a region, refusing any address or
    /// size that is not sector-aligned before anything is sent.
    pub fn erase_command(&mut self, addr: u32, size: u32) -> (r: Result<Vec<u8>, BootError>)
        requires
            old(self).token < u32::MAX,
        ensures
            match r {
                Ok(bytes) => addr % FLASH_SECTOR_SIZE == 0 && size % FLASH_SECTOR_SIZE == 0
                    && final(self).token == old(self).token + 1 && bytes@ == spec_boot_cmd(
                    old(self).token,
                    CMD_FLASH_ERASE,
                    spec_u32_to_le_bytes(addr) + spec_u32_to_le_bytes(size),
                    0,
                ),
                Err(e) => !(addr % FLASH_SECTOR_SIZE == 0 && size % FLASH_SECTOR_SIZE == 0) && e
                    == BootError::Misaligned && *final(self) == *old(self),
            },
    {
        if addr % FLASH_SECTOR_SIZE != 0 || size % FLASH_SECTOR_SIZE != 0 {
            return Err(BootError::Misaligned);
        }
        let mut args = u32_to_le_bytes(addr);
        let mut size_bytes = u32_to_le_bytes(size);
        args.append(&mut size_bytes);
        Ok(self.build_cmd(CMD_FLASH_ERASE, &args, 0))
    }

    /// Build the write command for a page-aligned address, refusing a
    /// misaligned one before anything is sent.
    pub fn write_command(&mut self, addr: u32, data_len: u32) -> (r: Result<Vec<u8>, BootError>)
        requires
            old(self).token < u32::MAX,
        ensures
            match r {
                Ok(bytes) => addr % FLASH_PAGE_SIZE == 0 && final(self).token == old(self).token
                    + 1 && bytes@ == spec_boot_cmd(
                    old(self).token,
                    CMD_WRITE,
                    spec_u32_to_le_bytes(addr) + spec_u32_to_le_bytes(data_len),
                    data_len,
                ),
                Err(e) => addr % FLASH_PAGE_SIZE != 0 && e == BootError::Misaligned
                    && *final(self) == *old(self),
            },
    {
        if addr % FLASH_PAGE_SIZE != 0 {
            return Err(BootError::Misaligned);
        }
        let mut args = u32_to_le_bytes(addr);
        let mut len_bytes = u32_to_le_bytes(data_len);
        args.append(&mut len_bytes);
        Ok(self.build_cmd(CMD_WRITE, &args, data_len))
    }

    /// Build the command claiming exclusive access to the device.
    pub fn exclusive_access_command(&mut self) -> (r: Vec<u8>)
        requires
            old(self).token < u32::MAX,
        ensures
            final(self).token == old(self).token + 1,
            r@ == spec_boot_cmd(old(self).token, CMD_EXCLUSIVE_ACCESS, seq![1u8], 0),
    {
        let mut args: Vec<u8> = Vec::new();
        args.push(1u8);
        self.build_cmd(CMD_EXCLUSIVE_ACCESS, &args, 0)
    }

    /// Build the command leaving execute-in-place mode, required once
    /// before any erase or write.
    pub fn exit_xip_command(&mut self) -> (r: Vec<u8>)
        requires
            old(self).token < u32::MAX,
        ensures
            final(self).token == old(self).token + 1,
            r@ == spec_boot_cmd(old(self).token, CMD_EXIT_XIP, Seq::empty(), 0),
    {
        let args: Vec<u8> = Vec::new();
        self.build_cmd(CMD_EXIT_XIP, &args, 0)
    }

    /// Build the reboot command: default program counter and stack, and
    /// a delay in milliseconds.  No acknowledgment follows it.
    pub fn reboot_command(&mut self, delay_ms: u32) -> (r: Vec<u8>)
        requires
            old(self).token < u32::MAX,
        ensures
            final(self).token == old(self).token + 1,
            r@ == spec_boot_cmd(
                old(self).token,
                CMD_REBOOT,
                spec_u32_to_le_bytes(0) + spec_u32_to_le_bytes(0) + spec_u32_to_le_bytes(delay_ms),
                0,
            ),
    {
        let mut args = u32_to_le_bytes(0);
        let mut sp_bytes = u32_to_le_bytes(0);
        let mut delay_bytes = u32_to_le_bytes(delay_ms);
        args.append(&mut sp_bytes);
        args.append(&mut delay_bytes);
        self.build_cmd(CMD_REBOOT, &args, 0)
    }
}

/// A command whose identifier has the high bit clear moves data host to
/// device and is followed by an ACK frame from the device.
pub fn needs_ack(cmd_id: u8) -> (r: bool)
    ensures
        r == (cmd_id & 0x80 == 0),
{
    cmd_id & 0x80 == 0
}

/// One poll of an erase in progress.
pub enum ErasePoll {
    /// The status settled to zero: the erase finished.
    Complete,
    /// A non-zero status before the deadline is the transient
    /// in-progress state, not an error: sleep and poll again.
    InProgress,
    /// A non-zero status still standing at the deadline is terminal:
    /// the erase failed with that code.
    Failed(u32),
}

/// Decide one poll of an erase: a zero status completes it, a non-zero
/// status is transient until the deadline and terminal at it.
pub fn erase_poll_step(status: u32, deadline_passed: bool) -> (r: ErasePoll)
    ensures
        r is Complete <==> status == 0,
        r is InProgress <==> (status != 0 && !deadline_passed),
        match r {
            ErasePoll::Failed(code) => status != 0 && deadline_passed && code == status,
            _ => !(status != 0 && deadline_passed),
        },
{
    if status == 0 {
        ErasePoll::Complete
    } else if deadline_passed {
        ErasePoll::Failed(status)
    } else {
        ErasePoll::InProgress
    }
}

/// One endpoint of an interface alternate setting, as plain values:
/// its direction and its address.
pub struct EndpointRecord {
    /// The endpoint moves data device to host.
    pub is_in: bool,
    pub address: u8,
}

/// Pick the bulk endpoint pair out of one vendor alternate setting:
/// the last OUT address and the last IN address listed, if each
/// direction appears.
pub fn pick_bulk_endpoints(eps: &Vec<EndpointRecord>) -> (r: (Option<u8>, Option<u8>))
    ensures
        match r.0 {
            Some(a) => exists|i: int|
                0 <= i < eps@.len() && !(#[trigger] eps@[i]).is_in && eps@[i].address == a && (
                forall|j: int| i < j < eps@.len() ==> (#[trigger] eps@[j]).is_in),
            None => forall|i: int| 0 <= i < eps@.len() ==> (#[trigger] eps@[i]).is_in,
        },
        match r.1 {
            Some(a) => exists|i: int|
                0 <= i < eps@.len() && (#[trigger] eps@[i]).is_in && eps@[i].address == a && (
                forall|j: int| i < j < eps@.len() ==> !(#[trigger] eps@[j]).is_in),
            None => forall|i: int| 0 <= i < eps@.len() ==> !(#[trigger] eps@[i]).is_in,
        },
{
    let mut out_addr: Option<u8> = None;
    let mut in_addr: Option<u8> = None;
    let mut i: usize = 0;
    while i < eps.len()
        invariant
            0 <= i <= eps@.len(),
            match out_addr {
                Some(a) => exists|t: int|
                    0 <= t < i && !(#[trigger] eps@[t]).is_in && eps@[t].address == a && (forall|
                        j: int,
                    | t < j < i ==> (#[trigger] eps@[j]).is_in),
                None => forall|t: int| 0 <= t < i ==> (#[trigger] eps@[t]).is_in,
            },
            match in_addr {
                Some(a) => exists|t: int|
                    0 <= t < i && (#[trigger] eps@[t]).is_in && eps@[t].address == a && (forall|
                        j: int,
                    | t < j < i ==> !(#[trigger] eps@[j]).is_in),
                None => forall|t: int| 0 <= t < i ==> !(#[trigger] eps@[t]).is_in,
            },
        decreases eps@.len() - i,
    {
        if eps[i].is_in {
            in_addr = Some(eps[i].address);
        } else {
            out_addr = Some(eps[i].address);
        }
        proof {
            let ii = i as int;
            if eps@[ii].is_in {
                assert(eps@[ii].is_in && eps@[ii].address == in_addr->0 && (forall|j: int|
                    ii < j < ii + 1 ==> !(#[trigger] eps@[j]).is_in));
                if out_addr is Some {
                    let t = choose|t: int|
                        0 <= t < ii && !(#[trigger] eps@[t]).is_in && eps@[t].address
                            == out_addr->0 && (forall|j: int|
                            t < j < ii ==> (#[trigger] eps@[j]).is_in);
                    assert(forall|j: int| t < j < ii + 1 ==> (#[trigger] eps@[j]).is_in);
                }
            } else {
                assert(!eps@[ii].is_in && eps@[ii].address == out_addr->0 && (forall|j: int|
                    ii < j < ii + 1 ==> (#[trigger] eps@[j]).is_in));
                if in_addr is Some {
                    let t = choose|t: int|
                        0 <= t < ii && (#[trigger] eps@[t]).is_in && eps@[t].address == in_addr->0
                            && (forall|j: int| t < j < ii ==> !(#[trigger] eps@[j]).is_in);
                    assert(forall|j: int| t < j < ii + 1 ==> !(#[trigger] eps@[j]).is_in);
                }
            }
        }
        i = i + 1;
    }
    (out_addr, in_addr)
}

/// Read the status code out of a status response: the little-endian
/// word in bytes 4 to 8.  Zero means success; the bootloader reports a
/// transient in-progress state as a non-zero code that settles to zero.
pub fn parse_status(buf: &[u8]) -> (r: Result<u32, BootError>)
    ensures
        match r {
            Ok(code) => buf@.len() >= 8 && code == spec_u32_from_le_bytes(buf@.subrange(4, 8)),
            Err(e) => buf@.len() < 8 && e == BootError::StatusTooShort,
        },
{
    if buf.len() < 8 {
        return Err(BootError::StatusTooShort);
    }
    Ok(u32_from_le_bytes(vstd::slice::slice_subrange(buf, 4, 8)))
}

} // verus!
