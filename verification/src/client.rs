//! Application-protocol client decisions.
//!
//! The client talks to a device running its application firmware: it
//! uploads and downloads the emulated memory window, reads and writes
//! named parameters, commits to flash, and tunnels raw bytes.  Every
//! decision here is a pure function over packets and accumulated state;
//! the transport loop around it receives frames, applies a step, and
//! performs the returned action.

use vstd::prelude::*;
use crate::packet::{ReqPacket, ReqView, RespPacket, RespView, PacketError, req_encodable,
    req_payload_bytes, MAX_DATA_PAYLOAD, MAX_PKT_PAYLOAD};

verus! {

/// Why a client operation failed.
#[derive(Clone, Copy, Debug, PartialEq, Eq, Structural)]
pub enum LinkError {
    /// No matching response arrived before the deadline.
    Timeout,
    /// A frame could not be encoded or decoded.
    Packet(PacketError),
    /// The device rejected or did not know a parameter.
    ParameterRejected,
    /// The device's reported write cursor disagreed with the data sent.
    UploadIncomplete,
    /// A read reply echoed a different offset than requested.
    OffsetMismatch,
    /// The device reported a different name after a rename.
    RenameMismatch,
    /// A ROM image file is larger than the emulated ROM.
    ImageTooLarge,
}

/// The response a pending operation is waiting for.
#[derive(Clone, Copy, Debug, PartialEq, Eq, Structural)]
pub enum Expected {
    /// A parameter value, or the device's rejection of the parameter.
    Parameter,
    /// An offset-tagged read reply.
    ReadData,
    /// The acknowledgment of a flash commit.
    CommitDone,
}

/// Whether a response answers what is being waited for.
pub open spec fn spec_expected_matches(e: Expected, p: RespView) -> bool {
    match e {
        Expected::Parameter => p is Parameter || p is ParameterError,
        Expected::ReadData => p is ReadData,
        Expected::CommitDone => p is CommitDone,
    }
}

/// A device-originated diagnostic that no operation waits for: routed
/// to logging by every receive loop, never to a waiting operation.
pub open spec fn spec_unsolicited(p: RespView) -> bool {
    p is Debug || p is Error
}

/// A device-originated diagnostic that no operation waits for.
pub fn is_unsolicited(p: &RespPacket) -> (r: bool)
    ensures
        r == spec_unsolicited(p@),
{
    match p {
        RespPacket::Debug(_, _, _) => true,
        RespPacket::Error(_, _, _) => true,
        _ => false,
    }
}

/// The outcome of handing one receive-loop event to a waiting
/// operation.
pub enum RecvStep {
    /// This response answers the operation.
    Matched(RespPacket),
    /// Keep receiving: a diagnostic or an unrelated response.
    Continue,
    /// The deadline passed with no matching response.
    TimedOut,
}

/// Decide one step of a receive loop: `None` means the deadline passed
/// with nothing received; a diagnostic or unrelated response keeps the
/// loop going; a matching response ends it.
pub fn recv_until_step(pkt: Option<RespPacket>, expect: Expected) -> (r: RecvStep)
    ensures
        match r {
            RecvStep::Matched(p) => pkt is Some && p == pkt->0 && spec_expected_matches(
                expect,
                p@,
            ),
            RecvStep::Continue => pkt is Some && !spec_expected_matches(expect, pkt->0@),
            RecvStep::TimedOut => pkt is None,
        },
{
    match pkt {
        None => RecvStep::TimedOut,
        Some(p) => {
            let hit = match (expect, &p) {
                (Expected::Parameter, RespPacket::Parameter(_)) => true,
                (Expected::Parameter, RespPacket::ParameterError) => true,
                (Expected::ReadData, RespPacket::ReadData(_, _)) => true,
                (Expected::CommitDone, RespPacket::CommitDone) => true,
                _ => false,
            };
            if hit {
                RecvStep::Matched(p)
            } else {
                RecvStep::Continue
            }
        }
    }
}

/// Interpret the response to a parameter get or set: the value, the
/// device's rejection, or nothing to act on yet.
pub fn parameter_reply(p: RespPacket) -> (r: Option<Result<String, LinkError>>)
    ensures
        match r {
            Some(Ok(value)) => p@ is Parameter && value@ == p@->Parameter_0,
            Some(Err(e)) => p@ is ParameterError && e == LinkError::ParameterRejected,
            None => !(p@ is Parameter) && !(p@ is ParameterError),
        },
{
    match p {
        RespPacket::Parameter(value) => Some(Ok(value)),
        RespPacket::ParameterError => Some(Err(LinkError::ParameterRejected)),
        _ => None,
    }
}

/// Split data into offset-tagged write requests, each carrying at most
/// a chunk of [`MAX_DATA_PAYLOAD`] bytes, offsets advancing from
/// `addr`.  Their payloads concatenate back to the data.
#[verifier::spinoff_prover]
#[verifier::rlimit(50)]
pub fn upload_plan(addr: u32, data: &Vec<u8>) -> (r: Vec<ReqPacket>)
    requires
        addr as int + data@.len() <= 0x1_0000_0000,
    ensures
        forall|j: int|
            0 <= j < r@.len() ==> (#[trigger] r@[j])@ == ReqView::Write(
                (addr + j * MAX_DATA_PAYLOAD) as u32,
                data@.subrange(
                    j * MAX_DATA_PAYLOAD,
                    if (j + 1) * MAX_DATA_PAYLOAD <= data@.len() {
                        (j + 1) * MAX_DATA_PAYLOAD
                    } else {
                        data@.len() as int
                    },
                ),
            ),
        forall|j: int| 0 <= j < r@.len() ==> (#[trigger] r@[j])@ == spec_plan_chunk(addr, data@, j),
        forall|j: int| 0 <= j < r@.len() ==> req_encodable((#[trigger] r@[j])@),
        data@.len() == 0 ==> r@.len() == 0,
        data@.len() > 0 ==> r@.len() >= 1 && (r@.len() - 1) * MAX_DATA_PAYLOAD < data@.len()
            <= r@.len() * MAX_DATA_PAYLOAD,
    {
        let n = data.len();
        let mut r: Vec<ReqPacket> = Vec::new();
        let mut off: usize = 0;
        while off < n
            invariant
                n == data@.len(),
                addr as int + n as int <= 0x1_0000_0000,
                off == r@.len() * MAX_DATA_PAYLOAD || off == n,
                off < n ==> off == r@.len() * MAX_DATA_PAYLOAD,
                off == n ==> n <= r@.len() * MAX_DATA_PAYLOAD,
                r@.len() == 0 || (r@.len() - 1) * MAX_DATA_PAYLOAD < n,
                forall|j: int|
                    0 <= j < r@.len() ==> (#[trigger] r@[j])@ == ReqView::Write(
                        (addr + j * MAX_DATA_PAYLOAD) as u32,
                        data@.subrange(
                            j * MAX_DATA_PAYLOAD,
                            if (j + 1) * MAX_DATA_PAYLOAD <= n {
                                (j + 1) * MAX_DATA_PAYLOAD
                            } else {
                                n as int
                            },
                        ),
                    ),
                forall|j: int| 0 <= j < r@.len() ==> req_encodable((#[trigger] r@[j])@),
            decreases n - off,
        {
            let start = off;
            let end = if n - start >= MAX_DATA_PAYLOAD {
                start + MAX_DATA_PAYLOAD
            } else {
                n
            };
            let chunk = vstd::slice::slice_to_vec(
                vstd::slice::slice_subrange(data.as_slice(), start, end),
            );
            proof {
                assert(addr as int + start as int <= u32::MAX as int);
            }
            let pkt = ReqPacket::Write(addr + start as u32, chunk);
            let ghost prev = r@;
            r.push(pkt);
            proof {
                let l = prev.len() as int;
                assert(l * MAX_DATA_PAYLOAD == start as int);
                assert(r@[l]@ == ReqView::Write(
                    (addr as int + start as int) as u32,
                    data@.subrange(start as int, end as int),
                ));
                assert((addr as int + start as int) as u32 == (addr + l
                    * MAX_DATA_PAYLOAD) as u32);
                assert(data@.subrange(start as int, end as int) == data@.subrange(
                    l * MAX_DATA_PAYLOAD,
                    if (l + 1) * MAX_DATA_PAYLOAD <= n {
                        (l + 1) * MAX_DATA_PAYLOAD
                    } else {
                        n as int
                    },
                ));
                vstd::bytes::lemma_auto_spec_u32_to_from_le_bytes();
                assert(req_payload_bytes(r@[l]@).len() <= MAX_PKT_PAYLOAD);
                assert(forall|j: int| 0 <= j < l ==> r@[j] == prev[j]);
            }
            off = end;
        }
        r
    }

/// How far the device's write cursor moved: the wrapping distance from
/// the start address to the reported cursor.
pub open spec fn spec_cursor_advance(addr: u32, cur: u32) -> int {
    if cur >= addr {
        cur - addr
    } else {
        cur + 0x1_0000_0000 - addr
    }
}

/// Check the device's reported cursor after an upload: it must have
/// advanced by exactly the number of bytes sent, else the upload did
/// not complete and the failure is reported, never ignored.
pub fn check_upload_cursor(addr: u32, len: u32, cur: u32) -> (r: Result<(), LinkError>)
    ensures
        match r {
            Ok(()) => spec_cursor_advance(addr, cur) == len,
            Err(e) => spec_cursor_advance(addr, cur) != len && e == LinkError::UploadIncomplete,
        },
{
    let advance: u32 = if cur >= addr {
        cur - addr
    } else {
        (0xFFFF_FFFFu32 - addr) + cur + 1
    };
    if advance == len {
        Ok(())
    } else {
        Err(LinkError::UploadIncomplete)
    }
}

/// Fold one read reply into a download in progress.  The echoed offset
/// must be the number of bytes gathered so far; an empty chunk means
/// the device has no more data.
pub enum DownloadStep {
    /// The chunk was appended; ask for more from the new offset.
    More,
    /// The device is out of data; the result is what was gathered.
    Done,
    /// The reply did not belong to this download.
    Failed(LinkError),
}

/// Fold one read reply into the gathered bytes.
pub fn download_step(gathered: &mut Vec<u8>, resp_offset: u32, chunk: &Vec<u8>) -> (r:
    DownloadStep)
    requires
        old(gathered)@.len() + chunk@.len() <= u32::MAX,
    ensures
        match r {
            DownloadStep::More => resp_offset == old(gathered)@.len() && chunk@.len() > 0
                && final(gathered)@ == old(gathered)@ + chunk@,
            DownloadStep::Done => resp_offset == old(gathered)@.len() && chunk@.len() == 0
                && final(gathered)@ == old(gathered)@,
            DownloadStep::Failed(e) => resp_offset != old(gathered)@.len() && e
                == LinkError::OffsetMismatch && final(gathered)@ == old(gathered)@,
        },
{
    if resp_offset as usize != gathered.len() {
        return DownloadStep::Failed(LinkError::OffsetMismatch);
    }
    if chunk.len() == 0 {
        return DownloadStep::Done;
    }
    gathered.extend_from_slice(chunk.as_slice());
    DownloadStep::More
}

/// Gather the names a parameter enumeration returned, one reply per
/// cursor query, stopping at the first empty name.  The empty name ends
/// the list; it is not an error, and the walk never continues past it.
/// With no empty name among the replies the enumeration never finished:
/// that is a timeout.
pub fn collect_parameter_names(replies: &Vec<String>) -> (r: Result<Vec<String>, LinkError>)
    ensures
        match r {
            Ok(names) => exists|e: int|
                {
                    &&& 0 <= e < replies@.len()
                    &&& (#[trigger] replies@[e])@.len() == 0
                    &&& forall|q: int| 0 <= q < e ==> (#[trigger] replies@[q])@.len() > 0
                    &&& names@.len() == e
                    &&& forall|q: int| 0 <= q < e ==> (#[trigger] names@[q])@ == replies@[q]@
                },
            Err(e) => e == LinkError::Timeout && forall|q: int|
                0 <= q < replies@.len() ==> (#[trigger] replies@[q])@.len() > 0,
        },
{
    let mut names: Vec<String> = Vec::new();
    let mut i: usize = 0;
    while i < replies.len()
        invariant
            0 <= i <= replies@.len(),
            names@.len() == i,
            forall|q: int| 0 <= q < i ==> (#[trigger] replies@[q])@.len() > 0,
            forall|q: int| 0 <= q < i ==> (#[trigger] names@[q])@ == replies@[q]@,
        decreases replies@.len() - i,
    {
        let reply = &replies[i];
        if reply.as_str().unicode_len() == 0 {
            proof {
                assert(replies@[i as int]@.len() == 0);
            }
            return Ok(names);
        }
        names.push(reply.clone());
        i = i + 1;
    }
    Err(LinkError::Timeout)
}

/// Fold one reply of the cursor enumeration into the gathered names:
/// a non-empty name is kept and the walk goes on, an empty name ends
/// it.
pub fn parameter_walk_step(names: &mut Vec<String>, reply: &String) -> (r: bool)
    ensures
        r == (reply@.len() > 0),
        r ==> final(names)@ == old(names)@.push(*reply),
        !r ==> final(names)@ == old(names)@,
{
    if reply.as_str().unicode_len() == 0 {
        false
    } else {
        names.push(reply.clone());
        true
    }
}

/// Split outgoing tunnel bytes into frames of at most a packet's
/// payload; their payloads concatenate back to the bytes.
#[verifier::spinoff_prover]
#[verifier::rlimit(50)]
pub fn comms_chunks(outgoing: &Vec<u8>) -> (r: Vec<ReqPacket>)
    ensures
        forall|j: int|
            0 <= j < r@.len() ==> (#[trigger] r@[j])@ == ReqView::CommsData(
                outgoing@.subrange(
                    j * MAX_PKT_PAYLOAD,
                    if (j + 1) * MAX_PKT_PAYLOAD <= outgoing@.len() {
                        (j + 1) * MAX_PKT_PAYLOAD
                    } else {
                        outgoing@.len() as int
                    },
                ),
            ),
        forall|j: int| 0 <= j < r@.len() ==> req_encodable((#[trigger] r@[j])@),
        outgoing@.len() == 0 ==> r@.len() == 0,
        outgoing@.len() > 0 ==> r@.len() >= 1 && (r@.len() - 1) * MAX_PKT_PAYLOAD < outgoing@.len()
            <= r@.len() * MAX_PKT_PAYLOAD,
{
    let n = outgoing.len();
    let mut r: Vec<ReqPacket> = Vec::new();
    let mut off: usize = 0;
    while off < n
        invariant
            n == outgoing@.len(),
            off == r@.len() * MAX_PKT_PAYLOAD || off == n,
            off < n ==> off == r@.len() * MAX_PKT_PAYLOAD,
            off == n ==> n <= r@.len() * MAX_PKT_PAYLOAD,
            r@.len() == 0 || (r@.len() - 1) * MAX_PKT_PAYLOAD < n,
            forall|j: int|
                0 <= j < r@.len() ==> (#[trigger] r@[j])@ == ReqView::CommsData(
                    outgoing@.subrange(
                        j * MAX_PKT_PAYLOAD,
                        if (j + 1) * MAX_PKT_PAYLOAD <= n {
                            (j + 1) * MAX_PKT_PAYLOAD
                        } else {
                            n as int
                        },
                    ),
                ),
            forall|j: int| 0 <= j < r@.len() ==> req_encodable((#[trigger] r@[j])@),
        decreases n - off,
    {
        let start = off;
        let end = if n - start >= MAX_PKT_PAYLOAD {
            start + MAX_PKT_PAYLOAD
        } else {
            n
        };
        let chunk = vstd::slice::slice_to_vec(
            vstd::slice::slice_subrange(outgoing.as_slice(), start, end),
        );
        let ghost prev = r@;
        r.push(ReqPacket::CommsData(chunk));
        proof {
            let l = prev.len() as int;
            assert(r@[l]@ == ReqView::CommsData(
                outgoing@.subrange(
                    l * MAX_PKT_PAYLOAD,
                    if (l + 1) * MAX_PKT_PAYLOAD <= n {
                        (l + 1) * MAX_PKT_PAYLOAD
                    } else {
                        n as int
                    },
                ),
            ));
            assert(req_payload_bytes(r@[l]@).len() <= MAX_PKT_PAYLOAD);
            assert(forall|j: int| 0 <= j < l ==> r@[j] == prev[j]);
        }
        off = end;
    }
    r
}

/// The tunnel bytes carried by the first `n` frames, in order;
/// responses other than tunnel data carry none.
pub open spec fn spec_comms_bytes(frames: Seq<RespView>, n: int) -> Seq<u8>
    decreases n,
{
    if n <= 0 {
        Seq::empty()
    } else {
        spec_comms_bytes(frames, n - 1) + (match frames[n - 1] {
            RespView::CommsData(d) => d,
            _ => Seq::empty(),
        })
    }
}

/// Gather the tunnel bytes out of a run of received frames, in order,
/// ignoring everything that is not tunnel data.
pub fn collect_comms_data(frames: &Vec<RespPacket>) -> (r: Vec<u8>)
    ensures
        r@ == spec_comms_bytes(frames@.map_values(|p: RespPacket| p@), frames@.len() as int),
{
    let ghost views = frames@.map_values(|p: RespPacket| p@);
    let mut r: Vec<u8> = Vec::new();
    let mut i: usize = 0;
    while i < frames.len()
        invariant
            views == frames@.map_values(|p: RespPacket| p@),
            0 <= i <= frames@.len(),
            r@ == spec_comms_bytes(views, i as int),
        decreases frames@.len() - i,
    {
        match &frames[i] {
            RespPacket::CommsData(data) => {
                r.extend_from_slice(data.as_slice());
            }
            _ => {}
        }
        proof {
            assert(views[i as int] == frames@[i as int]@);
        }
        i = i + 1;
    }
    r
}

/// The reset line levels a device can be asked to drive.
#[derive(Clone, Debug)]
pub enum ResetLevel {
    High,
    Low,
    Z,
}

/// The parameter value naming a reset level.
pub fn reset_level_value(level: &ResetLevel) -> (r: &'static str)
    ensures
        r@ == (match level {
            ResetLevel::High => "high"@,
            ResetLevel::Low => "low"@,
            ResetLevel::Z => "z"@,
        }),
{
    match level {
        ResetLevel::High => "high",
        ResetLevel::Low => "low",
        ResetLevel::Z => "z",
    }
}

/// Check the name the device reports after a rename: anything but the
/// requested name is a failure.
pub fn check_rename(expected: &String, reported: &String) -> (r: Result<(), LinkError>)
    ensures
        match r {
            Ok(()) => expected@ == reported@,
            Err(e) => expected@ != reported@ && e == LinkError::RenameMismatch,
        },
{
    if expected.eq(reported) {
        Ok(())
    } else {
        Err(LinkError::RenameMismatch)
    }
}

/// Pad a ROM image out to the emulated ROM size with zero bytes; an
/// image larger than the size is refused.
pub fn pad_rom_image(data: Vec<u8>, size: usize) -> (r: Result<Vec<u8>, LinkError>)
    ensures
        match r {
            Ok(d) => data@.len() <= size && d@ == data@ + Seq::new(
                (size - data@.len()) as nat,
                |q: int| 0u8,
            ),
            Err(e) => data@.len() > size && e == LinkError::ImageTooLarge,
        },
{
    if data.len() > size {
        return Err(LinkError::ImageTooLarge);
    }
    let mut d = data;
    let ghost base = d@;
    while d.len() < size
        invariant
            base.len() <= d@.len() <= size,
            d@.take(base.len() as int) == base,
            forall|q: int| base.len() <= q < d@.len() ==> d@[q] == 0u8,
        decreases size - d@.len(),
    {
        d.push(0u8);
        assert(d@.take(base.len() as int) =~= base);
    }
    proof {
        assert(d@ =~= base + Seq::new((size - base.len()) as nat, |q: int| 0u8));
    }
    Ok(d)
}

/// Memory after writing a byte block at an offset.
pub open spec fn spec_apply_write(mem: Seq<u8>, offset: int, data: Seq<u8>) -> Seq<u8>
    recommends
        0 <= offset,
        offset + data.len() <= mem.len(),
{
    mem.take(offset) + data + mem.skip(offset + data.len())
}

/// The bytes read back from an offset.
pub open spec fn spec_mem_read(mem: Seq<u8>, offset: int, n: int) -> Seq<u8>
    recommends
        0 <= offset,
        offset + n <= mem.len(),
{
    mem.subrange(offset, offset + n)
}

/// Round trip: uploading a byte block and downloading the same length
/// from the same offset returns the block unchanged.
pub proof fn lemma_upload_download_roundtrip(mem: Seq<u8>, offset: int, data: Seq<u8>)
    requires
        0 <= offset,
        offset + data.len() <= mem.len(),
    ensures
        spec_mem_read(spec_apply_write(mem, offset, data), offset, data.len() as int) == data,
{
    assert(spec_mem_read(spec_apply_write(mem, offset, data), offset, data.len() as int)
        =~= data);
}

/// Two writes at adjacent offsets land the same memory as one write of
/// the concatenated block: chunking an upload does not change what the
/// device stores.
pub proof fn lemma_chunked_write(mem: Seq<u8>, offset: int, d1: Seq<u8>, d2: Seq<u8>)
    requires
        0 <= offset,
        offset + d1.len() + d2.len() <= mem.len(),
    ensures
        spec_apply_write(spec_apply_write(mem, offset, d1), offset + d1.len(), d2)
            == spec_apply_write(mem, offset, d1 + d2),
{
    assert(spec_apply_write(spec_apply_write(mem, offset, d1), offset + d1.len(), d2)
        =~= spec_apply_write(mem, offset, d1 + d2));
}

/// Memory after a device applies the first `n` requests of an upload
/// plan; only offset-tagged writes change anything.
pub open spec fn spec_apply_write_packets(mem: Seq<u8>, pkts: Seq<ReqView>, n: int) -> Seq<u8>
    decreases n,
{
    if n <= 0 {
        mem
    } else {
        let prev = spec_apply_write_packets(mem, pkts, n - 1);
        match pkts[n - 1] {
            ReqView::Write(off, d) => spec_apply_write(prev, off as int, d),
            _ => prev,
        }
    }
}

/// An upload plan's chunk at index `j`, per the plan's contract.
pub open spec fn spec_plan_chunk(addr: u32, data: Seq<u8>, j: int) -> ReqView {
    ReqView::Write(
        (addr + j * MAX_DATA_PAYLOAD) as u32,
        data.subrange(
            j * MAX_DATA_PAYLOAD,
            if (j + 1) * MAX_DATA_PAYLOAD <= data.len() {
                (j + 1) * MAX_DATA_PAYLOAD
            } else {
                data.len() as int
            },
        ),
    )
}

/// Applying the first `n` chunks of an upload plan writes exactly the
/// first bytes those chunks carry.
proof fn lemma_plan_prefix_writes(
    mem: Seq<u8>,
    addr: u32,
    data: Seq<u8>,
    pkts: Seq<ReqView>,
    n: int,
)
    requires
        addr as int + data.len() <= mem.len(),
        addr as int + data.len() <= 0x1_0000_0000,
        0 <= n <= pkts.len(),
        n * MAX_DATA_PAYLOAD <= data.len() + MAX_DATA_PAYLOAD - 1,
        forall|j: int| 0 <= j < pkts.len() ==> #[trigger] pkts[j] == spec_plan_chunk(addr, data, j),
    ensures
        spec_apply_write_packets(mem, pkts, n) == spec_apply_write(
            mem,
            addr as int,
            data.take(
                if n * MAX_DATA_PAYLOAD <= data.len() {
                    n * MAX_DATA_PAYLOAD
                } else {
                    data.len() as int
                },
            ),
        ),
    decreases n,
{
    if n == 0 {
        assert(spec_apply_write(mem, addr as int, data.take(0)) =~= mem);
    } else {
        lemma_plan_prefix_writes(mem, addr, data, pkts, n - 1);
        let start = (n - 1) * MAX_DATA_PAYLOAD;
        let end = if n * MAX_DATA_PAYLOAD <= data.len() {
            n * MAX_DATA_PAYLOAD
        } else {
            data.len() as int
        };
        assert(pkts[n - 1] == spec_plan_chunk(addr, data, n - 1));
        let d1 = data.take(start);
        let d2 = data.subrange(start, end);
        assert((addr + (n - 1) * MAX_DATA_PAYLOAD) as u32 as int == addr as int + start);
        lemma_chunked_write(mem, addr as int, d1, d2);
        assert(d1 + d2 =~= data.take(end));
    }
}

/// Law: a device that applies every write of an upload plan in order
/// holds the uploaded bytes, exactly as one contiguous write of them —
/// chunking changes nothing — and reading the same length back from
/// the same address returns them unchanged.
pub proof fn lemma_upload_plan_round_trip(
    mem: Seq<u8>,
    addr: u32,
    data: Seq<u8>,
    pkts: Seq<ReqView>,
)
    requires
        addr as int + data.len() <= mem.len(),
        addr as int + data.len() <= 0x1_0000_0000,
        forall|j: int| 0 <= j < pkts.len() ==> #[trigger] pkts[j] == spec_plan_chunk(addr, data, j),
        data.len() == 0 ==> pkts.len() == 0,
        data.len() > 0 ==> (pkts.len() - 1) * MAX_DATA_PAYLOAD < data.len() <= pkts.len()
            * MAX_DATA_PAYLOAD,
    ensures
        spec_apply_write_packets(mem, pkts, pkts.len() as int) == spec_apply_write(
            mem,
            addr as int,
            data,
        ),
        spec_mem_read(
            spec_apply_write_packets(mem, pkts, pkts.len() as int),
            addr as int,
            data.len() as int,
        ) == data,
{
    let n = pkts.len() as int;
    lemma_plan_prefix_writes(mem, addr, data, pkts, n);
    assert(data.take(data.len() as int) =~= data);
    lemma_upload_download_roundtrip(mem, addr as int, data);
}

} // verus!
