use picorom::packet::{PacketError, ReqPacket, RespPacket};

#[test]
fn encode_parameter_get() {
    let pkt = ReqPacket::ParameterGet(String::from("name"));
    let bytes = pkt.encode().unwrap();
    assert_eq!(bytes, vec![21, 5, b'n', b'a', b'm', b'e', 0]);
}

#[test]
fn encode_write_offset_tagged() {
    let pkt = ReqPacket::Write(0x0102_0304, vec![0xAA, 0xBB]);
    let bytes = pkt.encode().unwrap();
    assert_eq!(bytes, vec![6, 6, 0x04, 0x03, 0x02, 0x01, 0xAA, 0xBB]);
}

#[test]
fn encode_rejects_oversized_payload() {
    // A write data chunk of 33 bytes makes a 37-byte payload: one past
    // the cap.
    let pkt = ReqPacket::Write(0, vec![0u8; 33]);
    assert_eq!(pkt.encode().unwrap_err(), PacketError::PayloadTooLarge);
    // 32 bytes of data still fits.
    let pkt = ReqPacket::Write(0, vec![0u8; 32]);
    assert!(pkt.encode().is_ok());
    // An oversized tunnel frame is refused too.
    let pkt = ReqPacket::CommsData(vec![0u8; 37]);
    assert_eq!(pkt.encode().unwrap_err(), PacketError::PayloadTooLarge);
}

#[test]
fn request_round_trip() {
    let cases = vec![
        ReqPacket::Write(0x1000, vec![1, 2, 3]),
        ReqPacket::Read(0x20, 16),
        ReqPacket::CommitFlash,
        ReqPacket::CommsStart(0x1F00),
        ReqPacket::CommsEnd,
        ReqPacket::CommsData(vec![9, 8, 7]),
        ReqPacket::Identify,
        ReqPacket::Bootsel,
        ReqPacket::ParameterQuery(None),
        ReqPacket::ParameterQuery(Some(String::from("addr_mask"))),
        ReqPacket::ParameterGet(String::from("rom_size")),
        ReqPacket::ParameterSet(String::from("reset"), String::from("low")),
    ];
    for pkt in cases {
        let bytes = pkt.clone().encode().unwrap();
        let back = ReqPacket::decode(&bytes).unwrap();
        match (pkt, back) {
            (ReqPacket::Write(o1, d1), ReqPacket::Write(o2, d2)) => {
                assert_eq!(o1, o2);
                assert_eq!(d1, d2);
            }
            (ReqPacket::Read(o1, s1), ReqPacket::Read(o2, s2)) => {
                assert_eq!(o1, o2);
                assert_eq!(s1, s2);
            }
            (ReqPacket::CommitFlash, ReqPacket::CommitFlash) => {}
            (ReqPacket::CommsStart(a1), ReqPacket::CommsStart(a2)) => assert_eq!(a1, a2),
            (ReqPacket::CommsEnd, ReqPacket::CommsEnd) => {}
            (ReqPacket::CommsData(d1), ReqPacket::CommsData(d2)) => assert_eq!(d1, d2),
            (ReqPacket::Identify, ReqPacket::Identify) => {}
            (ReqPacket::Bootsel, ReqPacket::Bootsel) => {}
            (ReqPacket::ParameterQuery(a1), ReqPacket::ParameterQuery(a2)) => assert_eq!(a1, a2),
            (ReqPacket::ParameterGet(n1), ReqPacket::ParameterGet(n2)) => assert_eq!(n1, n2),
            (ReqPacket::ParameterSet(n1, v1), ReqPacket::ParameterSet(n2, v2)) => {
                assert_eq!(n1, n2);
                assert_eq!(v1, v2);
            }
            _ => panic!("variant changed across the round trip"),
        }
    }
}

#[test]
fn parameter_set_value_may_hold_commas() {
    let pkt = ReqPacket::ParameterSet(String::from("name"), String::from("a,b"));
    let bytes = pkt.encode().unwrap();
    match ReqPacket::decode(&bytes).unwrap() {
        ReqPacket::ParameterSet(n, v) => {
            assert_eq!(n, "name");
            assert_eq!(v, "a,b");
        }
        _ => panic!("wrong variant"),
    }
}

#[test]
fn decode_rejects_bad_frames() {
    assert_eq!(ReqPacket::decode(&[6]).unwrap_err(), PacketError::Truncated);
    // Length byte claims more than the cap.
    assert_eq!(
        ReqPacket::decode(&[6, 40, 0, 0]).unwrap_err(),
        PacketError::PayloadTooLarge
    );
    // Frame shorter than its length byte claims.
    assert_eq!(ReqPacket::decode(&[6, 6, 0, 0]).unwrap_err(), PacketError::Truncated);
    // Unknown tag.
    assert_eq!(ReqPacket::decode(&[99, 0]).unwrap_err(), PacketError::UnknownKind(99));
    // A write payload too short to carry its offset.
    assert_eq!(ReqPacket::decode(&[6, 2, 0, 0]).unwrap_err(), PacketError::Malformed);
}

#[test]
fn response_round_trip() {
    let cases = vec![
        RespPacket::ReadData(0x40, vec![5, 6]),
        RespPacket::CommitDone,
        RespPacket::CommsData(vec![1]),
        RespPacket::Parameter(String::from("2MBit")),
        RespPacket::ParameterError,
        RespPacket::Error(String::from("bad"), 1, 2),
        RespPacket::Debug(String::from("dbg"), 3, 4),
    ];
    for pkt in cases {
        let bytes = pkt.clone().encode().unwrap();
        let back = RespPacket::decode(&bytes).unwrap();
        match (pkt, back) {
            (RespPacket::ReadData(o1, d1), RespPacket::ReadData(o2, d2)) => {
                assert_eq!(o1, o2);
                assert_eq!(d1, d2);
            }
            (RespPacket::CommitDone, RespPacket::CommitDone) => {}
            (RespPacket::CommsData(d1), RespPacket::CommsData(d2)) => assert_eq!(d1, d2),
            (RespPacket::Parameter(v1), RespPacket::Parameter(v2)) => assert_eq!(v1, v2),
            (RespPacket::ParameterError, RespPacket::ParameterError) => {}
            (RespPacket::Error(m1, a1, b1), RespPacket::Error(m2, a2, b2)) => {
                assert_eq!(m1, m2);
                assert_eq!(a1, a2);
                assert_eq!(b1, b2);
            }
            (RespPacket::Debug(m1, a1, b1), RespPacket::Debug(m2, a2, b2)) => {
                assert_eq!(m1, m2);
                assert_eq!(a1, a2);
                assert_eq!(b1, b2);
            }
            _ => panic!("variant changed across the round trip"),
        }
    }
}

#[test]
fn response_decode_rejects_bad_frames() {
    // A diagnostic payload too small for its two code words.
    assert_eq!(
        RespPacket::decode(&[0xFF, 4, 1, 2, 3, 4]).unwrap_err(),
        PacketError::Malformed
    );
    // A parameter value that is not UTF-8.
    assert_eq!(
        RespPacket::decode(&[22, 2, 0xFF, 0xFE]).unwrap_err(),
        PacketError::Malformed
    );
    // A request tag is not a response.
    assert_eq!(RespPacket::decode(&[6, 0]).unwrap_err(), PacketError::UnknownKind(6));
}
