//! Application-protocol packet codec.
//!
//! A packet travels as `[kind][len][payload]`: one tag byte, one length
//! byte, then `len` payload bytes, with `len` capped at
//! [`MAX_PKT_PAYLOAD`].  Requests flow host to device, responses device to
//! host.  Encoding and decoding are pure functions over bytes; their
//! contracts are stated against the spec-level encodings below, and
//! [`lemma_req_round_trip`] shows that decoding an encoded request gives
//! the request back.

use vstd::prelude::*;
use vstd::bytes::*;
use vstd::utf8::*;
use vstd::string::*;
use vstd::slice::*;

verus! {

/// Longest payload a packet can carry.
pub const MAX_PKT_PAYLOAD: usize = 36;

/// Longest data chunk in an offset-tagged write or read reply: the
/// payload less the four offset bytes.
pub const MAX_DATA_PAYLOAD: usize = 32;

pub const KIND_WRITE: u8 = 6;
pub const KIND_READ: u8 = 7;
pub const KIND_READ_DATA: u8 = 8;
pub const KIND_COMMIT_FLASH: u8 = 12;
pub const KIND_COMMIT_DONE: u8 = 13;
pub const KIND_PARAMETER_SET: u8 = 20;
pub const KIND_PARAMETER_GET: u8 = 21;
pub const KIND_PARAMETER: u8 = 22;
pub const KIND_PARAMETER_ERROR: u8 = 23;
pub const KIND_PARAMETER_QUERY: u8 = 24;
pub const KIND_COMMS_START: u8 = 80;
pub const KIND_COMMS_END: u8 = 81;
pub const KIND_COMMS_DATA: u8 = 82;
pub const KIND_IDENTIFY: u8 = 0xf8;
pub const KIND_BOOTSEL: u8 = 0xf9;
pub const KIND_ERROR: u8 = 0xfe;
pub const KIND_DEBUG: u8 = 0xff;

/// A request the host sends to a device running application firmware.
#[derive(Clone, Debug)]
pub enum ReqPacket {
    /// Write bytes at an offset of the emulated memory window.
    Write(u32, Vec<u8>),
    /// Read up to the given number of bytes from an offset.
    Read(u32, u8),
    /// Commit the current image to device flash.
    CommitFlash,
    /// Open the transparent byte tunnel at an address.
    CommsStart(u32),
    /// Close the transparent byte tunnel.
    CommsEnd,
    /// Bytes for the transparent byte tunnel.
    CommsData(Vec<u8>),
    /// Ask the device to flash its activity light.
    Identify,
    /// Ask the device to reboot into its bootloader.
    Bootsel,
    /// Ask for the name of the parameter after the given one; `None`
    /// starts the enumeration.
    ParameterQuery(Option<String>),
    /// Ask for a parameter's value.
    ParameterGet(String),
    /// Set a parameter to a value.
    ParameterSet(String, String),
}

/// Mathematical model of a request: the same variants over `Seq` views.
pub enum ReqView {
    Write(u32, Seq<u8>),
    Read(u32, u8),
    CommitFlash,
    CommsStart(u32),
    CommsEnd,
    CommsData(Seq<u8>),
    Identify,
    Bootsel,
    ParameterQuery(Option<Seq<char>>),
    ParameterGet(Seq<char>),
    ParameterSet(Seq<char>, Seq<char>),
}

impl View for ReqPacket {
    type V = ReqView;

    open spec fn view(&self) -> ReqView {
        match self {
            ReqPacket::Write(offset, data) => ReqView::Write(*offset, data@),
            ReqPacket::Read(offset, size) => ReqView::Read(*offset, *size),
            ReqPacket::CommitFlash => ReqView::CommitFlash,
            ReqPacket::CommsStart(addr) => ReqView::CommsStart(*addr),
            ReqPacket::CommsEnd => ReqView::CommsEnd,
            ReqPacket::CommsData(data) => ReqView::CommsData(data@),
            ReqPacket::Identify => ReqView::Identify,
            ReqPacket::Bootsel => ReqView::Bootsel,
            ReqPacket::ParameterQuery(None) => ReqView::ParameterQuery(None),
            ReqPacket::ParameterQuery(Some(after)) => ReqView::ParameterQuery(Some(after@)),
            ReqPacket::ParameterGet(name) => ReqView::ParameterGet(name@),
            ReqPacket::ParameterSet(name, value) => ReqView::ParameterSet(name@, value@),
        }
    }
}

/// What can go wrong encoding or decoding a packet.
#[derive(Clone, Copy, Debug, PartialEq, Eq, Structural)]
pub enum PacketError {
    /// The payload does not fit behind a one-byte length field, or the
    /// length byte of a frame exceeds the cap.
    PayloadTooLarge,
    /// The frame is too short to hold the header, or its total length
    /// is not exactly what its length byte claims.
    Truncated,
    /// The tag byte is not one this protocol assigns.
    UnknownKind(u8),
    /// The payload does not have the shape the tag demands.
    Malformed,
}

/// The bytes of a NUL-terminated string field.
pub open spec fn zbytes(s: Seq<char>) -> Seq<u8> {
    encode_utf8(s) + seq![0u8]
}

/// The tag byte of a request.
pub open spec fn req_kind_byte(v: ReqView) -> u8 {
    match v {
        ReqView::Write(_, _) => KIND_WRITE,
        ReqView::Read(_, _) => KIND_READ,
        ReqView::CommitFlash => KIND_COMMIT_FLASH,
        ReqView::CommsStart(_) => KIND_COMMS_START,
        ReqView::CommsEnd => KIND_COMMS_END,
        ReqView::CommsData(_) => KIND_COMMS_DATA,
        ReqView::Identify => KIND_IDENTIFY,
        ReqView::Bootsel => KIND_BOOTSEL,
        ReqView::ParameterQuery(_) => KIND_PARAMETER_QUERY,
        ReqView::ParameterGet(_) => KIND_PARAMETER_GET,
        ReqView::ParameterSet(_, _) => KIND_PARAMETER_SET,
    }
}

/// The payload bytes of a request.
pub open spec fn req_payload_bytes(v: ReqView) -> Seq<u8> {
    match v {
        ReqView::Write(offset, data) => spec_u32_to_le_bytes(offset) + data,
        ReqView::Read(offset, size) => spec_u32_to_le_bytes(offset) + seq![size],
        ReqView::CommitFlash => Seq::empty(),
        ReqView::CommsStart(addr) => spec_u32_to_le_bytes(addr),
        ReqView::CommsEnd => Seq::empty(),
        ReqView::CommsData(data) => data,
        ReqView::Identify => Seq::empty(),
        ReqView::Bootsel => Seq::empty(),
        ReqView::ParameterQuery(None) => Seq::empty(),
        ReqView::ParameterQuery(Some(after)) => zbytes(after),
        ReqView::ParameterGet(name) => zbytes(name),
        ReqView::ParameterSet(name, value) => zbytes(name + seq![','] + value),
    }
}

/// A request fits on the wire when its payload fits behind the one-byte
/// length field.
pub open spec fn req_encodable(v: ReqView) -> bool {
    req_payload_bytes(v).len() <= MAX_PKT_PAYLOAD
}

/// The full wire form of a request: tag, length, payload.
pub open spec fn req_encoding(v: ReqView) -> Seq<u8> {
    seq![req_kind_byte(v), req_payload_bytes(v).len() as u8] + req_payload_bytes(v)
}

/// Append a NUL terminator to a string's bytes.
pub fn zstring(s: String) -> (r: Vec<u8>)
    ensures
        r@ == zbytes(s@),
{
    let mut v = s.as_str().as_bytes_vec();
    v.push(0u8);
    assert(v@ =~= zbytes(s@));
    v
}

impl ReqPacket {
    /// Encode this request into its wire form, or report that the
    /// payload does not fit.
    pub fn encode(&self) -> (r: Result<Vec<u8>, PacketError>)
        ensures
            match r {
                Ok(bytes) => req_encodable(self@) && bytes@ == req_encoding(self@),
                Err(e) => !req_encodable(self@) && e == PacketError::PayloadTooLarge,
            },
    {
        let kind: u8;
        let payload: Vec<u8>;
        match self {
            ReqPacket::Write(offset, data) => {
                kind = KIND_WRITE;
                let mut pl = u32_to_le_bytes(*offset);
                pl.extend_from_slice(data.as_slice());
                payload = pl;
            }
            ReqPacket::Read(offset, size) => {
                kind = KIND_READ;
                let mut pl = u32_to_le_bytes(*offset);
                pl.push(*size);
                assert(pl@ =~= req_payload_bytes(self@));
                payload = pl;
            }
            ReqPacket::CommitFlash => {
                kind = KIND_COMMIT_FLASH;
                payload = Vec::new();
            }
            ReqPacket::CommsStart(addr) => {
                kind = KIND_COMMS_START;
                payload = u32_to_le_bytes(*addr);
            }
            ReqPacket::CommsEnd => {
                kind = KIND_COMMS_END;
                payload = Vec::new();
            }
            ReqPacket::CommsData(data) => {
                kind = KIND_COMMS_DATA;
                let mut pl: Vec<u8> = Vec::new();
                pl.extend_from_slice(data.as_slice());
                assert(pl@ =~= data@);
                payload = pl;
            }
            ReqPacket::Identify => {
                kind = KIND_IDENTIFY;
                payload = Vec::new();
            }
            ReqPacket::Bootsel => {
                kind = KIND_BOOTSEL;
                payload = Vec::new();
            }
            ReqPacket::ParameterQuery(None) => {
                kind = KIND_PARAMETER_QUERY;
                payload = Vec::new();
            }
            ReqPacket::ParameterQuery(Some(after)) => {
                kind = KIND_PARAMETER_QUERY;
                payload = zstring(after.clone());
            }
            ReqPacket::ParameterGet(name) => {
                kind = KIND_PARAMETER_GET;
                payload = zstring(name.clone());
            }
            ReqPacket::ParameterSet(name, value) => {
                kind = KIND_PARAMETER_SET;
                let mut joined = name.clone();
                joined.append(",");
                joined.append(value.as_str());
                proof {
                    reveal_strlit(",");
                    assert(joined@ =~= name@ + seq![','] + value@);
                }
                payload = zstring(joined);
            }
        }

        assert(payload@ == req_payload_bytes(self@));

        if payload.len() > MAX_PKT_PAYLOAD {
            return Err(PacketError::PayloadTooLarge);
        }

        let mut out: Vec<u8> = Vec::new();
        out.push(kind);
        out.push(payload.len() as u8);
        out.extend_from_slice(payload.as_slice());
        assert(out@ =~= req_encoding(self@));
        Ok(out)
    }
}

/// Relies on `String::from_utf8`: it succeeds exactly on valid UTF-8 and
/// the returned string holds the given bytes.
#[verifier::external_body]
fn string_from_utf8(v: Vec<u8>) -> (r: Option<String>)
    ensures
        match r {
            Some(s) => valid_utf8(v@) && encode_utf8(s@) == v@,
            None => !valid_utf8(v@),
        },
{
    match String::from_utf8(v) {
        Ok(s) => Some(s),
        Err(_) => None,
    }
}

/// The string a NUL-terminated payload holds: the payload must end in the
/// terminator and the bytes before it must be valid UTF-8.
pub open spec fn spec_zstr(pl: Seq<u8>) -> Option<Seq<char>> {
    if pl.len() >= 1 && pl.last() == 0u8 && valid_utf8(pl.drop_last()) {
        Some(decode_utf8(pl.drop_last()))
    } else {
        None
    }
}

/// The request a tag byte and payload stand for, if any.
pub open spec fn spec_req_payload_decode(k: u8, pl: Seq<u8>) -> Option<ReqView> {
    if k == KIND_WRITE {
        if pl.len() >= 4 {
            Some(ReqView::Write(spec_u32_from_le_bytes(pl.take(4)), pl.skip(4)))
        } else {
            None
        }
    } else if k == KIND_READ {
        if pl.len() == 5 {
            Some(ReqView::Read(spec_u32_from_le_bytes(pl.take(4)), pl[4]))
        } else {
            None
        }
    } else if k == KIND_COMMIT_FLASH {
        if pl.len() == 0 {
            Some(ReqView::CommitFlash)
        } else {
            None
        }
    } else if k == KIND_COMMS_START {
        if pl.len() == 4 {
            Some(ReqView::CommsStart(spec_u32_from_le_bytes(pl)))
        } else {
            None
        }
    } else if k == KIND_COMMS_END {
        if pl.len() == 0 {
            Some(ReqView::CommsEnd)
        } else {
            None
        }
    } else if k == KIND_COMMS_DATA {
        Some(ReqView::CommsData(pl))
    } else if k == KIND_IDENTIFY {
        if pl.len() == 0 {
            Some(ReqView::Identify)
        } else {
            None
        }
    } else if k == KIND_BOOTSEL {
        if pl.len() == 0 {
            Some(ReqView::Bootsel)
        } else {
            None
        }
    } else if k == KIND_PARAMETER_QUERY {
        if pl.len() == 0 {
            Some(ReqView::ParameterQuery(None))
        } else {
            match spec_zstr(pl) {
                Some(s) => Some(ReqView::ParameterQuery(Some(s))),
                None => None,
            }
        }
    } else if k == KIND_PARAMETER_GET {
        match spec_zstr(pl) {
            Some(s) => Some(ReqView::ParameterGet(s)),
            None => None,
        }
    } else if k == KIND_PARAMETER_SET {
        match spec_zstr(pl) {
            Some(s) => match s.index_of_first(',') {
                Some(i) => Some(ReqView::ParameterSet(s.take(i), s.skip(i + 1))),
                None => None,
            },
            None => None,
        }
    } else {
        None
    }
}

/// The tag byte belongs to some request.
pub open spec fn spec_is_req_kind(k: u8) -> bool {
    k == KIND_WRITE || k == KIND_READ || k == KIND_COMMIT_FLASH || k == KIND_COMMS_START || k
        == KIND_COMMS_END || k == KIND_COMMS_DATA || k == KIND_IDENTIFY || k == KIND_BOOTSEL || k
        == KIND_PARAMETER_QUERY || k == KIND_PARAMETER_GET || k == KIND_PARAMETER_SET
}

/// The error a frame that encodes no request is refused with.
pub open spec fn spec_req_decode_err(bytes: Seq<u8>) -> PacketError {
    if bytes.len() < 2 {
        PacketError::Truncated
    } else if bytes[1] > MAX_PKT_PAYLOAD {
        PacketError::PayloadTooLarge
    } else if bytes.len() != 2 + bytes[1] {
        PacketError::Truncated
    } else if spec_is_req_kind(bytes[0]) {
        PacketError::Malformed
    } else {
        PacketError::UnknownKind(bytes[0])
    }
}

/// The request a whole frame stands for, if any.
pub open spec fn spec_req_decode(bytes: Seq<u8>) -> Option<ReqView> {
    if bytes.len() < 2 {
        None
    } else if bytes[1] > MAX_PKT_PAYLOAD || bytes.len() != 2 + bytes[1] {
        None
    } else {
        spec_req_payload_decode(bytes[0], bytes.skip(2))
    }
}

/// Index of the first occurrence of a character in a string.
pub(crate) fn find_char(s: &str, c: char) -> (r: Option<usize>)
    ensures
        match r {
            Some(i) => s@.index_of_first(c) == Some(i as int),
            None => s@.index_of_first(c) is None,
        },
{
    proof {
        s@.index_of_first_ensures(c);
    }
    let n = s.unicode_len();
    let mut i: usize = 0;
    while i < n
        invariant
            n == s@.len(),
            0 <= i <= n,
            forall|j: int| 0 <= j < i ==> s@[j] != c,
        decreases n - i,
    {
        if s.get_char(i) == c {
            proof {
                s@.index_of_first_ensures(c);
            }
            return Some(i);
        }
        i = i + 1;
    }
    proof {
        s@.index_of_first_ensures(c);
    }
    None
}

/// Strip the NUL terminator from a payload and decode the bytes before
/// it, per [`spec_zstr`].
fn zstr_exec(pl: &Vec<u8>) -> (r: Option<String>)
    ensures
        match r {
            Some(s) => spec_zstr(pl@) == Some(s@),
            None => spec_zstr(pl@) is None,
        },
{
    broadcast use encode_utf8_decode_utf8;

    if pl.len() == 0 {
        return None;
    }
    if pl[pl.len() - 1] != 0u8 {
        return None;
    }
    let stripped = slice_to_vec(slice_subrange(pl.as_slice(), 0, pl.len() - 1));
    assert(stripped@ =~= pl@.drop_last());
    string_from_utf8(stripped)
}

impl ReqPacket {
    /// Decode a frame back into the request it encodes, per
    /// [`spec_req_decode`].
    #[verifier::spinoff_prover]
    #[verifier::rlimit(50)]
    pub fn decode(frame: &[u8]) -> (r: Result<ReqPacket, PacketError>)
        ensures
            match r {
                Ok(p) => spec_req_decode(frame@) == Some(p@),
                Err(e) => spec_req_decode(frame@) is None && e == spec_req_decode_err(frame@),
            },
    {
        if frame.len() < 2 {
            return Err(PacketError::Truncated);
        }
        let k = *slice_index_get(frame, 0);
        let n = *slice_index_get(frame, 1) as usize;
        if n > MAX_PKT_PAYLOAD {
            return Err(PacketError::PayloadTooLarge);
        }
        if frame.len() != 2 + n {
            return Err(PacketError::Truncated);
        }
        let payload = slice_to_vec(slice_subrange(frame, 2, frame.len()));
        assert(payload@ =~= frame@.skip(2));

        if k == KIND_WRITE {
            if payload.len() < 4 {
                return Err(PacketError::Malformed);
            }
            let offset = u32_from_le_bytes(slice_subrange(payload.as_slice(), 0, 4));
            let data = slice_to_vec(slice_subrange(payload.as_slice(), 4, payload.len()));
            assert(payload@.subrange(0, 4) =~= payload@.take(4));
            Ok(ReqPacket::Write(offset, data))
        } else if k == KIND_READ {
            if payload.len() != 5 {
                return Err(PacketError::Malformed);
            }
            let offset = u32_from_le_bytes(slice_subrange(payload.as_slice(), 0, 4));
            assert(payload@.subrange(0, 4) =~= payload@.take(4));
            Ok(ReqPacket::Read(offset, payload[4]))
        } else if k == KIND_COMMIT_FLASH {
            if payload.len() != 0 {
                return Err(PacketError::Malformed);
            }
            Ok(ReqPacket::CommitFlash)
        } else if k == KIND_COMMS_START {
            if payload.len() != 4 {
                return Err(PacketError::Malformed);
            }
            let addr = u32_from_le_bytes(payload.as_slice());
            Ok(ReqPacket::CommsStart(addr))
        } else if k == KIND_COMMS_END {
            if payload.len() != 0 {
                return Err(PacketError::Malformed);
            }
            Ok(ReqPacket::CommsEnd)
        } else if k == KIND_COMMS_DATA {
            Ok(ReqPacket::CommsData(payload))
        } else if k == KIND_IDENTIFY {
            if payload.len() != 0 {
                return Err(PacketError::Malformed);
            }
            Ok(ReqPacket::Identify)
        } else if k == KIND_BOOTSEL {
            if payload.len() != 0 {
                return Err(PacketError::Malformed);
            }
            Ok(ReqPacket::Bootsel)
        } else if k == KIND_PARAMETER_QUERY {
            if payload.len() == 0 {
                return Ok(ReqPacket::ParameterQuery(None));
            }
            match zstr_exec(&payload) {
                Some(s) => Ok(ReqPacket::ParameterQuery(Some(s))),
                None => Err(PacketError::Malformed),
            }
        } else if k == KIND_PARAMETER_GET {
            match zstr_exec(&payload) {
                Some(s) => Ok(ReqPacket::ParameterGet(s)),
                None => Err(PacketError::Malformed),
            }
        } else if k == KIND_PARAMETER_SET {
            let s = match zstr_exec(&payload) {
                Some(s) => s,
                None => {
                    return Err(PacketError::Malformed);
                }
            };
            let i = match find_char(s.as_str(), ',') {
                Some(i) => i,
                None => {
                    return Err(PacketError::Malformed);
                }
            };
            proof {
                s@.index_of_first_ensures(',');
            }
            let n_chars = s.as_str().unicode_len();
            let name = String::from_str(s.as_str().substring_char(0, i));
            let value = String::from_str(s.as_str().substring_char(i + 1, n_chars));
            assert(name@ =~= s@.take(i as int));
            assert(value@ =~= s@.skip(i as int + 1));
            Ok(ReqPacket::ParameterSet(name, value))
        } else {
            Err(PacketError::UnknownKind(k))
        }
    }
}

/// A request round-trips through the codec when its parameter name, if it
/// sets one, carries no separator comma.
pub open spec fn req_wf(v: ReqView) -> bool {
    match v {
        ReqView::ParameterSet(name, _) => !name.contains(','),
        _ => true,
    }
}

/// Round trip: decoding the encoding of a request gives the request
/// back, for every encodable request whose parameter name carries no
/// separator comma.
#[verifier::spinoff_prover]
#[verifier::rlimit(50)]
pub proof fn lemma_req_round_trip(v: ReqView)
    requires
        req_wf(v),
        req_encodable(v),
    ensures
        spec_req_decode(req_encoding(v)) == Some(v),
{
    broadcast use encode_utf8_decode_utf8, encode_utf8_valid_utf8;

    lemma_auto_spec_u32_to_from_le_bytes();
    let e = req_encoding(v);
    let pl = req_payload_bytes(v);
    assert(e.skip(2) =~= pl);
    match v {
        ReqView::Write(offset, data) => {
            assert(pl.take(4) =~= spec_u32_to_le_bytes(offset));
            assert(pl.skip(4) =~= data);
        }
        ReqView::Read(offset, size) => {
            assert(pl.take(4) =~= spec_u32_to_le_bytes(offset));
            assert(pl[4] == size);
        }
        ReqView::CommsStart(addr) => {
            assert(pl =~= spec_u32_to_le_bytes(addr));
        }
        ReqView::ParameterQuery(Some(after)) => {
            lemma_zstr_of_zbytes(after);
        }
        ReqView::ParameterGet(name) => {
            lemma_zstr_of_zbytes(name);
        }
        ReqView::ParameterSet(name, value) => {
            let joined = name + seq![','] + value;
            lemma_zstr_of_zbytes(joined);
            joined.index_of_first_ensures(',');
            assert(joined[name.len() as int] == ',');
            let i = joined.index_of_first(',').unwrap();
            assert(i <= name.len()) by {
                if i > name.len() {
                    assert(joined[name.len() as int] == ',');
                }
            }
            assert(i >= name.len()) by {
                if i < name.len() {
                    assert(joined[i] == name[i]);
                    assert(name.contains(','));
                }
            }
            assert(joined.take(name.len() as int) =~= name);
            assert(joined.skip(name.len() as int + 1) =~= value);
        }
        _ => {}
    }
}

/// A response a device sends back to the host.
#[derive(Clone, Debug)]
pub enum RespPacket {
    /// Bytes read from an offset of the emulated memory window; a short
    /// or empty chunk means the device had no more data there.
    ReadData(u32, Vec<u8>),
    /// The image was committed to flash.
    CommitDone,
    /// Bytes from the transparent byte tunnel.
    CommsData(Vec<u8>),
    /// A parameter's value, or the next parameter name in an
    /// enumeration; an empty name ends the enumeration.
    Parameter(String),
    /// The named parameter was unknown or the value rejected.
    ParameterError,
    /// A device-originated error: message and two diagnostic words.
    Error(String, u32, u32),
    /// A device-originated debug note: message and two diagnostic words.
    Debug(String, u32, u32),
}

/// Mathematical model of a response.
pub enum RespView {
    ReadData(u32, Seq<u8>),
    CommitDone,
    CommsData(Seq<u8>),
    Parameter(Seq<char>),
    ParameterError,
    Error(Seq<char>, u32, u32),
    Debug(Seq<char>, u32, u32),
}

impl View for RespPacket {
    type V = RespView;

    open spec fn view(&self) -> RespView {
        match self {
            RespPacket::ReadData(offset, data) => RespView::ReadData(*offset, data@),
            RespPacket::CommitDone => RespView::CommitDone,
            RespPacket::CommsData(data) => RespView::CommsData(data@),
            RespPacket::Parameter(value) => RespView::Parameter(value@),
            RespPacket::ParameterError => RespView::ParameterError,
            RespPacket::Error(msg, v0, v1) => RespView::Error(msg@, *v0, *v1),
            RespPacket::Debug(msg, v0, v1) => RespView::Debug(msg@, *v0, *v1),
        }
    }
}

/// The tag byte of a response.
pub open spec fn resp_kind_byte(v: RespView) -> u8 {
    match v {
        RespView::ReadData(_, _) => KIND_READ_DATA,
        RespView::CommitDone => KIND_COMMIT_DONE,
        RespView::CommsData(_) => KIND_COMMS_DATA,
        RespView::Parameter(_) => KIND_PARAMETER,
        RespView::ParameterError => KIND_PARAMETER_ERROR,
        RespView::Error(_, _, _) => KIND_ERROR,
        RespView::Debug(_, _, _) => KIND_DEBUG,
    }
}

/// The payload bytes of a response.
pub open spec fn resp_payload_bytes(v: RespView) -> Seq<u8> {
    match v {
        RespView::ReadData(offset, data) => spec_u32_to_le_bytes(offset) + data,
        RespView::CommitDone => Seq::empty(),
        RespView::CommsData(data) => data,
        RespView::Parameter(value) => encode_utf8(value),
        RespView::ParameterError => Seq::empty(),
        RespView::Error(msg, v0, v1) => spec_u32_to_le_bytes(v0) + spec_u32_to_le_bytes(v1)
            + encode_utf8(msg),
        RespView::Debug(msg, v0, v1) => spec_u32_to_le_bytes(v0) + spec_u32_to_le_bytes(v1)
            + encode_utf8(msg),
    }
}

/// A response fits on the wire when its payload fits behind the one-byte
/// length field.
pub open spec fn resp_encodable(v: RespView) -> bool {
    resp_payload_bytes(v).len() <= MAX_PKT_PAYLOAD
}

/// The full wire form of a response: tag, length, payload.
pub open spec fn resp_encoding(v: RespView) -> Seq<u8> {
    seq![resp_kind_byte(v), resp_payload_bytes(v).len() as u8] + resp_payload_bytes(v)
}

/// The response a tag byte and payload stand for, if any.  A commit or
/// parameter-error acknowledgment carries no information, so any payload
/// is accepted with it.  Message text must be valid UTF-8, as the wire
/// format defines it: a frame whose text is not is refused as malformed
/// rather than patched up with replacement characters, and the
/// transport is free to log and skip such a diagnostic frame.
pub open spec fn spec_resp_payload_decode(k: u8, pl: Seq<u8>) -> Option<RespView> {
    if k == KIND_READ_DATA {
        if pl.len() >= 4 {
            Some(RespView::ReadData(spec_u32_from_le_bytes(pl.take(4)), pl.skip(4)))
        } else {
            None
        }
    } else if k == KIND_COMMIT_DONE {
        Some(RespView::CommitDone)
    } else if k == KIND_COMMS_DATA {
        Some(RespView::CommsData(pl))
    } else if k == KIND_PARAMETER {
        if valid_utf8(pl) {
            Some(RespView::Parameter(decode_utf8(pl)))
        } else {
            None
        }
    } else if k == KIND_PARAMETER_ERROR {
        Some(RespView::ParameterError)
    } else if k == KIND_ERROR || k == KIND_DEBUG {
        if pl.len() >= 8 && valid_utf8(pl.skip(8)) {
            let v0 = spec_u32_from_le_bytes(pl.take(4));
            let v1 = spec_u32_from_le_bytes(pl.subrange(4, 8));
            let msg = decode_utf8(pl.skip(8));
            if k == KIND_ERROR {
                Some(RespView::Error(msg, v0, v1))
            } else {
                Some(RespView::Debug(msg, v0, v1))
            }
        } else {
            None
        }
    } else {
        None
    }
}

/// The tag byte belongs to some response.
pub open spec fn spec_is_resp_kind(k: u8) -> bool {
    k == KIND_READ_DATA || k == KIND_COMMIT_DONE || k == KIND_COMMS_DATA || k == KIND_PARAMETER
        || k == KIND_PARAMETER_ERROR || k == KIND_ERROR || k == KIND_DEBUG
}

/// The error a frame that encodes no response is refused with.
pub open spec fn spec_resp_decode_err(bytes: Seq<u8>) -> PacketError {
    if bytes.len() < 2 {
        PacketError::Truncated
    } else if bytes[1] > MAX_PKT_PAYLOAD {
        PacketError::PayloadTooLarge
    } else if bytes.len() != 2 + bytes[1] {
        PacketError::Truncated
    } else if spec_is_resp_kind(bytes[0]) {
        PacketError::Malformed
    } else {
        PacketError::UnknownKind(bytes[0])
    }
}

/// The response a whole frame stands for, if any.
pub open spec fn spec_resp_decode(bytes: Seq<u8>) -> Option<RespView> {
    if bytes.len() < 2 {
        None
    } else if bytes[1] > MAX_PKT_PAYLOAD || bytes.len() != 2 + bytes[1] {
        None
    } else {
        spec_resp_payload_decode(bytes[0], bytes.skip(2))
    }
}

impl RespPacket {
    /// Encode this response into its wire form, or report that the
    /// payload does not fit.
    pub fn encode(&self) -> (r: Result<Vec<u8>, PacketError>)
        ensures
            match r {
                Ok(bytes) => resp_encodable(self@) && bytes@ == resp_encoding(self@),
                Err(e) => !resp_encodable(self@) && e == PacketError::PayloadTooLarge,
            },
    {
        let kind: u8;
        let payload: Vec<u8>;
        match self {
            RespPacket::ReadData(offset, data) => {
                kind = KIND_READ_DATA;
                let mut pl = u32_to_le_bytes(*offset);
                pl.extend_from_slice(data.as_slice());
                payload = pl;
            }
            RespPacket::CommitDone => {
                kind = KIND_COMMIT_DONE;
                payload = Vec::new();
            }
            RespPacket::CommsData(data) => {
                kind = KIND_COMMS_DATA;
                let mut pl: Vec<u8> = Vec::new();
                pl.extend_from_slice(data.as_slice());
                assert(pl@ =~= data@);
                payload = pl;
            }
            RespPacket::Parameter(value) => {
                kind = KIND_PARAMETER;
                payload = value.as_str().as_bytes_vec();
            }
            RespPacket::ParameterError => {
                kind = KIND_PARAMETER_ERROR;
                payload = Vec::new();
            }
            RespPacket::Error(msg, v0, v1) => {
                kind = KIND_ERROR;
                let mut pl = u32_to_le_bytes(*v0);
                let mut second = u32_to_le_bytes(*v1);
                pl.append(&mut second);
                pl.extend_from_slice(msg.as_str().as_bytes());
                payload = pl;
            }
            RespPacket::Debug(msg, v0, v1) => {
                kind = KIND_DEBUG;
                let mut pl = u32_to_le_bytes(*v0);
                let mut second = u32_to_le_bytes(*v1);
                pl.append(&mut second);
                pl.extend_from_slice(msg.as_str().as_bytes());
                payload = pl;
            }
        }

        assert(payload@ == resp_payload_bytes(self@));

        if payload.len() > MAX_PKT_PAYLOAD {
            return Err(PacketError::PayloadTooLarge);
        }

        let mut out: Vec<u8> = Vec::new();
        out.push(kind);
        out.push(payload.len() as u8);
        out.extend_from_slice(payload.as_slice());
        assert(out@ =~= resp_encoding(self@));
        Ok(out)
    }

    /// Decode a frame into the response it encodes, per
    /// [`spec_resp_decode`].
    #[verifier::spinoff_prover]
    #[verifier::rlimit(50)]
    pub fn decode(frame: &[u8]) -> (r: Result<RespPacket, PacketError>)
        ensures
            match r {
                Ok(p) => spec_resp_decode(frame@) == Some(p@),
                Err(e) => spec_resp_decode(frame@) is None && e == spec_resp_decode_err(frame@),
            },
    {
        broadcast use encode_utf8_decode_utf8;

        if frame.len() < 2 {
            return Err(PacketError::Truncated);
        }
        let k = *slice_index_get(frame, 0);
        let n = *slice_index_get(frame, 1) as usize;
        if n > MAX_PKT_PAYLOAD {
            return Err(PacketError::PayloadTooLarge);
        }
        if frame.len() != 2 + n {
            return Err(PacketError::Truncated);
        }
        let payload = slice_to_vec(slice_subrange(frame, 2, frame.len()));
        assert(payload@ =~= frame@.skip(2));

        if k == KIND_READ_DATA {
            if payload.len() < 4 {
                return Err(PacketError::Malformed);
            }
            let offset = u32_from_le_bytes(slice_subrange(payload.as_slice(), 0, 4));
            let data = slice_to_vec(slice_subrange(payload.as_slice(), 4, payload.len()));
            assert(payload@.subrange(0, 4) =~= payload@.take(4));
            Ok(RespPacket::ReadData(offset, data))
        } else if k == KIND_COMMIT_DONE {
            Ok(RespPacket::CommitDone)
        } else if k == KIND_COMMS_DATA {
            Ok(RespPacket::CommsData(payload))
        } else if k == KIND_PARAMETER {
            match string_from_utf8(payload) {
                Some(s) => Ok(RespPacket::Parameter(s)),
                None => Err(PacketError::Malformed),
            }
        } else if k == KIND_PARAMETER_ERROR {
            Ok(RespPacket::ParameterError)
        } else if k == KIND_ERROR || k == KIND_DEBUG {
            if payload.len() < 8 {
                return Err(PacketError::Malformed);
            }
            let v0 = u32_from_le_bytes(slice_subrange(payload.as_slice(), 0, 4));
            let v1 = u32_from_le_bytes(slice_subrange(payload.as_slice(), 4, 8));
            let msg_bytes = slice_to_vec(slice_subrange(payload.as_slice(), 8, payload.len()));
            assert(payload@.subrange(0, 4) =~= payload@.take(4));
            assert(msg_bytes@ =~= payload@.skip(8));
            match string_from_utf8(msg_bytes) {
                Some(msg) => {
                    if k == KIND_ERROR {
                        Ok(RespPacket::Error(msg, v0, v1))
                    } else {
                        Ok(RespPacket::Debug(msg, v0, v1))
                    }
                }
                None => Err(PacketError::Malformed),
            }
        } else {
            Err(PacketError::UnknownKind(k))
        }
    }
}

/// Round trip: decoding the encoding of a response gives the response
/// back, for every encodable response.
pub proof fn lemma_resp_round_trip(v: RespView)
    requires
        resp_encodable(v),
    ensures
        spec_resp_decode(resp_encoding(v)) == Some(v),
{
    broadcast use encode_utf8_decode_utf8, encode_utf8_valid_utf8;

    lemma_auto_spec_u32_to_from_le_bytes();
    let e = resp_encoding(v);
    let pl = resp_payload_bytes(v);
    assert(e.skip(2) =~= pl);
    match v {
        RespView::ReadData(offset, data) => {
            assert(pl.take(4) =~= spec_u32_to_le_bytes(offset));
            assert(pl.skip(4) =~= data);
        }
        RespView::Error(msg, v0, v1) => {
            assert(pl.take(4) =~= spec_u32_to_le_bytes(v0));
            assert(pl.subrange(4, 8) =~= spec_u32_to_le_bytes(v1));
            assert(pl.skip(8) =~= encode_utf8(msg));
        }
        RespView::Debug(msg, v0, v1) => {
            assert(pl.take(4) =~= spec_u32_to_le_bytes(v0));
            assert(pl.subrange(4, 8) =~= spec_u32_to_le_bytes(v1));
            assert(pl.skip(8) =~= encode_utf8(msg));
        }
        _ => {}
    }
}

/// A NUL-terminated string field decodes back to the string it encodes.
proof fn lemma_zstr_of_zbytes(s: Seq<char>)
    ensures
        spec_zstr(zbytes(s)) == Some(s),
{
    broadcast use encode_utf8_decode_utf8, encode_utf8_valid_utf8;

    let pl = zbytes(s);
    assert(pl.last() == 0u8);
    assert(pl.drop_last() =~= encode_utf8(s));
}

} // verus!
