use picorom::client::{
    check_rename, check_upload_cursor, collect_comms_data, collect_parameter_names, comms_chunks,
    download_step, is_unsolicited, pad_rom_image, parameter_reply, parameter_walk_step,
    recv_until_step, reset_level_value, upload_plan, DownloadStep, Expected, LinkError, RecvStep,
    ResetLevel,
};
use picorom::packet::{ReqPacket, RespPacket};

#[test]
fn recv_with_no_traffic_times_out() {
    // A deadline passing with no device traffic is a timeout failure,
    // not a hang.
    match recv_until_step(None, Expected::Parameter) {
        RecvStep::TimedOut => {}
        _ => panic!("expected a timeout"),
    }
}

#[test]
fn recv_routes_diagnostics_past_the_waiter() {
    let dbg = RespPacket::Debug(String::from("note"), 0, 0);
    match recv_until_step(Some(dbg), Expected::CommitDone) {
        RecvStep::Continue => {}
        _ => panic!("a diagnostic must not answer a waiting operation"),
    }
    match recv_until_step(Some(RespPacket::CommitDone), Expected::CommitDone) {
        RecvStep::Matched(RespPacket::CommitDone) => {}
        _ => panic!("the matching response must answer the waiter"),
    }
    // A parameter error answers a parameter wait: it is the device's
    // reply, not a stray.
    match recv_until_step(Some(RespPacket::ParameterError), Expected::Parameter) {
        RecvStep::Matched(RespPacket::ParameterError) => {}
        _ => panic!("a parameter error answers a parameter wait"),
    }
}

#[test]
fn unsolicited_kinds() {
    assert!(is_unsolicited(&RespPacket::Debug(String::new(), 0, 0)));
    assert!(is_unsolicited(&RespPacket::Error(String::new(), 0, 0)));
    assert!(!is_unsolicited(&RespPacket::CommitDone));
}

#[test]
fn parameter_replies() {
    match parameter_reply(RespPacket::Parameter(String::from("v"))) {
        Some(Ok(v)) => assert_eq!(v, "v"),
        _ => panic!("expected the value"),
    }
    match parameter_reply(RespPacket::ParameterError) {
        Some(Err(LinkError::ParameterRejected)) => {}
        _ => panic!("expected the rejection"),
    }
    assert!(parameter_reply(RespPacket::CommitDone).is_none());
}

#[test]
fn upload_chunks_advance_offsets() {
    let data: Vec<u8> = (0..70).collect();
    let plan = upload_plan(0x100, &data);
    assert_eq!(plan.len(), 3);
    let mut rebuilt: Vec<u8> = Vec::new();
    let mut expected_offset = 0x100u32;
    for pkt in plan {
        match pkt {
            ReqPacket::Write(off, chunk) => {
                assert_eq!(off, expected_offset);
                assert!(chunk.len() <= 32);
                expected_offset += chunk.len() as u32;
                rebuilt.extend_from_slice(&chunk);
            }
            _ => panic!("an upload plan holds only writes"),
        }
    }
    assert_eq!(rebuilt, data);
}

#[test]
fn cursor_check_detects_short_upload() {
    assert!(check_upload_cursor(0x100, 70, 0x146).is_ok());
    assert_eq!(
        check_upload_cursor(0x100, 70, 0x120).unwrap_err(),
        LinkError::UploadIncomplete
    );
}

#[test]
fn upload_then_download_returns_the_bytes() {
    // Round trip through the device protocol: apply the upload plan's
    // offset-tagged writes to a modeled memory, then read it back in
    // chunks with offset verification both ways.
    let data: Vec<u8> = (0..100).map(|x| (x * 7) as u8).collect();
    let mut mem = vec![0xFFu8; 256];
    let plan = upload_plan(0, &data);
    let mut final_cursor = 0u32;
    for pkt in plan {
        match pkt {
            ReqPacket::Write(off, chunk) => {
                mem[off as usize..off as usize + chunk.len()].copy_from_slice(&chunk);
                final_cursor = off + chunk.len() as u32;
            }
            _ => unreachable!(),
        }
    }
    assert!(check_upload_cursor(0, data.len() as u32, final_cursor).is_ok());

    let size = data.len();
    let mut gathered: Vec<u8> = Vec::new();
    loop {
        if gathered.len() >= size {
            break;
        }
        let off = gathered.len();
        let want = (size - off).min(32);
        let chunk: Vec<u8> = mem[off..off + want].to_vec();
        match download_step(&mut gathered, off as u32, &chunk) {
            DownloadStep::More => {}
            DownloadStep::Done => break,
            DownloadStep::Failed(e) => panic!("download failed: {:?}", e),
        }
    }
    gathered.truncate(size);
    assert_eq!(gathered, data);
}

#[test]
fn download_checks_echoed_offset() {
    let mut gathered: Vec<u8> = vec![1, 2, 3];
    match download_step(&mut gathered, 7, &vec![4]) {
        DownloadStep::Failed(LinkError::OffsetMismatch) => {}
        _ => panic!("a wrong echoed offset must fail"),
    }
    match download_step(&mut gathered, 3, &vec![]) {
        DownloadStep::Done => {}
        _ => panic!("an empty chunk ends the download"),
    }
}

#[test]
fn parameter_enumeration_stops_at_empty_name() {
    // The cursor walk ends when an empty name is returned, with the
    // names gathered so far; it never continues past it.
    let replies = vec![
        String::from("name"),
        String::from("addr_mask"),
        String::new(),
        String::from("ignored"),
    ];
    let names = collect_parameter_names(&replies).unwrap();
    assert_eq!(names, vec![String::from("name"), String::from("addr_mask")]);

    let no_end = vec![String::from("a"), String::from("b")];
    assert_eq!(collect_parameter_names(&no_end).unwrap_err(), LinkError::Timeout);

    let immediate = vec![String::new()];
    assert_eq!(collect_parameter_names(&immediate).unwrap(), Vec::<String>::new());
}

#[test]
fn tunnel_chunks_and_collection() {
    let outgoing: Vec<u8> = (0..80).collect();
    let frames = comms_chunks(&outgoing);
    assert_eq!(frames.len(), 3);
    let mut rebuilt: Vec<u8> = Vec::new();
    for pkt in &frames {
        match pkt {
            ReqPacket::CommsData(chunk) => {
                assert!(chunk.len() <= 36);
                rebuilt.extend_from_slice(chunk);
            }
            _ => panic!("a tunnel plan holds only tunnel frames"),
        }
    }
    assert_eq!(rebuilt, outgoing);

    let incoming = vec![
        RespPacket::CommsData(vec![1, 2]),
        RespPacket::Debug(String::new(), 0, 0),
        RespPacket::CommsData(vec![3]),
    ];
    assert_eq!(collect_comms_data(&incoming), vec![1, 2, 3]);
}

#[test]
fn reset_levels_name_their_values() {
    assert_eq!(reset_level_value(&ResetLevel::High), "high");
    assert_eq!(reset_level_value(&ResetLevel::Low), "low");
    assert_eq!(reset_level_value(&ResetLevel::Z), "z");
}

#[test]
fn rename_check_compares_names() {
    assert!(check_rename(&String::from("left"), &String::from("left")).is_ok());
    assert_eq!(
        check_rename(&String::from("left"), &String::from("right")).unwrap_err(),
        LinkError::RenameMismatch
    );
}

#[test]
fn rom_padding_fills_with_zeroes() {
    let padded = pad_rom_image(vec![9, 9], 5).unwrap();
    assert_eq!(padded, vec![9, 9, 0, 0, 0]);
    assert_eq!(
        pad_rom_image(vec![0; 10], 5).unwrap_err(),
        LinkError::ImageTooLarge
    );
}

#[test]
fn walk_step_keeps_nonempty_names_only() {
    let mut names: Vec<String> = Vec::new();
    assert!(parameter_walk_step(&mut names, &String::from("name")));
    assert!(parameter_walk_step(&mut names, &String::from("addr_mask")));
    assert_eq!(names, vec![String::from("name"), String::from("addr_mask")]);
    assert!(!parameter_walk_step(&mut names, &String::new()));
    assert_eq!(names.len(), 2);
}
