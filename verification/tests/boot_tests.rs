use picorom::boot::{
    erase_poll_step, needs_ack, parse_status, pick_bulk_endpoints, BootClient, BootError,
    EndpointRecord, ErasePoll, CMD_READ, CMD_WRITE,
};
use picorom::flash::{page_chunks, total_erase_bytes};
use picorom::image::Uf2File;

#[test]
fn command_packet_layout() {
    let mut client = BootClient::new();
    assert_eq!(client.token, 1);
    let args = vec![0xAA, 0xBB];
    let cmd = client.build_cmd(0x03, &args, 0x11223344);
    assert_eq!(cmd.len(), 32);
    // Magic word.
    assert_eq!(&cmd[0..4], &[0x0B, 0xD1, 0x1F, 0x43]);
    // Token 1.
    assert_eq!(&cmd[4..8], &[1, 0, 0, 0]);
    // Command id, argument length, two reserved bytes.
    assert_eq!(&cmd[8..12], &[0x03, 2, 0, 0]);
    // Transfer length.
    assert_eq!(&cmd[12..16], &[0x44, 0x33, 0x22, 0x11]);
    // Inline arguments, zero padded to 16.
    assert_eq!(&cmd[16..18], &[0xAA, 0xBB]);
    assert!(cmd[18..32].iter().all(|&b| b == 0));
    assert_eq!(client.token, 2);
}

#[test]
fn every_command_consumes_a_token() {
    let mut client = BootClient::new();
    let _ = client.exclusive_access_command();
    let _ = client.exit_xip_command();
    let _ = client.reboot_command(500);
    assert_eq!(client.token, 4);
}

#[test]
fn erase_command_requires_sector_alignment() {
    let mut client = BootClient::new();
    assert_eq!(
        client.erase_command(0x1000, 100).unwrap_err(),
        BootError::Misaligned
    );
    assert_eq!(
        client.erase_command(0x1004, 0x1000).unwrap_err(),
        BootError::Misaligned
    );
    // A refused command consumes no token.
    assert_eq!(client.token, 1);
    let cmd = client.erase_command(0x1000, 0x2000).unwrap();
    assert_eq!(&cmd[16..20], &0x1000u32.to_le_bytes());
    assert_eq!(&cmd[20..24], &0x2000u32.to_le_bytes());
    assert_eq!(client.token, 2);
}

#[test]
fn write_at_unaligned_address_fails_before_any_transfer() {
    // A write requested at 0x1001 with a 256-byte page must fail the
    // precondition check; no command bytes exist and no token is
    // consumed, so nothing was sent to the transport.
    let mut client = BootClient::new();
    assert_eq!(
        client.write_command(0x1001, 256).unwrap_err(),
        BootError::Misaligned
    );
    assert_eq!(client.token, 1);
    let cmd = client.write_command(0x1000, 256).unwrap();
    assert_eq!(&cmd[12..16], &256u32.to_le_bytes());
}

#[test]
fn status_word_sits_in_bytes_four_to_eight() {
    let buf = [0u8, 0, 0, 0, 0x2A, 0, 0, 0, 9, 9, 9, 9, 9, 9, 9, 9];
    assert_eq!(parse_status(&buf).unwrap(), 0x2A);
    assert_eq!(parse_status(&buf[0..4]).unwrap_err(), BootError::StatusTooShort);
}

#[test]
fn direction_bit_decides_ack() {
    assert!(needs_ack(CMD_WRITE));
    assert!(!needs_ack(CMD_READ));
}

#[test]
fn pages_pad_with_erased_fill() {
    let chunks = page_chunks(0x100, &vec![1u8; 300]);
    assert_eq!(chunks.len(), 2);
    assert_eq!(chunks[0].0, 0x100);
    assert_eq!(chunks[0].1, vec![1u8; 256]);
    assert_eq!(chunks[1].0, 0x200);
    assert_eq!(chunks[1].1.len(), 256);
    assert_eq!(&chunks[1].1[0..44], &vec![1u8; 44][..]);
    assert!(chunks[1].1[44..].iter().all(|&b| b == 0xFF));
}

#[test]
fn write_plan_covers_every_entry() {
    let f = Uf2File {
        blocks: vec![(0x1000, vec![2u8; 256]), (0x2000, vec![3u8; 10])],
        block_count: 2,
        family_id: None,
    };
    let plan = f.flash_write_plan();
    assert_eq!(plan.len(), 2);
    assert_eq!(plan[0].0, 0x1000);
    assert_eq!(plan[0].1, vec![2u8; 256]);
    assert_eq!(plan[1].0, 0x2000);
    assert_eq!(&plan[1].1[0..10], &vec![3u8; 10][..]);
    assert!(plan[1].1[10..].iter().all(|&b| b == 0xFF));
}

#[test]
fn erase_total_sums_region_sizes() {
    assert_eq!(total_erase_bytes(&vec![(0x1000, 0x2000), (0x5000, 0x1000)]), 0x3000);
    assert_eq!(total_erase_bytes(&vec![]), 0);
}

#[test]
fn erase_polling_is_transient_until_the_deadline() {
    // Zero completes the erase; non-zero is in progress while time
    // remains and terminal failure at the deadline.
    assert!(matches!(erase_poll_step(0, false), ErasePoll::Complete));
    assert!(matches!(erase_poll_step(0, true), ErasePoll::Complete));
    assert!(matches!(erase_poll_step(5, false), ErasePoll::InProgress));
    assert!(matches!(erase_poll_step(5, true), ErasePoll::Failed(5)));
}

#[test]
fn bulk_endpoint_pick_takes_the_last_of_each_direction() {
    let eps = vec![
        EndpointRecord { is_in: false, address: 0x01 },
        EndpointRecord { is_in: true, address: 0x81 },
        EndpointRecord { is_in: false, address: 0x02 },
    ];
    assert_eq!(pick_bulk_endpoints(&eps), (Some(0x02), Some(0x81)));
    let out_only = vec![EndpointRecord { is_in: false, address: 0x03 }];
    assert_eq!(pick_bulk_endpoints(&out_only), (Some(0x03), None));
    assert_eq!(pick_bulk_endpoints(&vec![]), (None, None));
}
