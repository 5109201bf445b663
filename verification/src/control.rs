//! Control frames and their codec.
//!
//! Control traffic runs on a dedicated stream pair, outside the id-multiplexed
//! channels.  Each frame travels as one length-prefixed message on that
//! ordered stream: a four-byte big-endian length, then the frame body.  The
//! body is a one-byte tag followed by the frame's fields; variable-length
//! fields run to the end of the body.

use vstd::prelude::*;
use vstd::string::StrSliceExecFns;
use vstd::utf8::decode_utf8;
use vstd::utf8::encode_utf8;
use vstd::utf8::encode_utf8_decode_utf8;
use vstd::utf8::encode_utf8_valid_utf8;
use vstd::utf8::valid_utf8;

use crate::envelope::be_bytes_of_u32;
use crate::envelope::u32_of_be_bytes;
use crate::envelope::MAX_FRAME_SIZE;
use crate::errors::NetworkError;

verus! {

/// One message on the dedicated control stream pair.
///
/// The client sends `Connect` once on entry to the handshake; the server
/// answers `Accept` or `Reject`; after that, the only valid control frame is
/// the informational `StatsReport`.
#[derive(Debug, Clone, PartialEq, Eq)]
pub enum ControlFrame {
    /// Join request carrying the immutable user identifier for the session.
    Connect { user_id: String },
    /// The server admitted the session; carries opaque session information.
    Accept { session_info: Vec<u8> },
    /// The server refused the session, with a human-readable reason.
    Reject { reason: String },
    /// Informational link statistics pushed by the peer.
    StatsReport { latency_ms: u64, bytes_sent: u64, bytes_received: u64 },
}

/// The mathematical content of a [`ControlFrame`]: the same variants over
/// sequences instead of heap values.
pub enum FrameView {
    Connect { user_id: Seq<char> },
    Accept { session_info: Seq<u8> },
    Reject { reason: Seq<char> },
    StatsReport { latency_ms: u64, bytes_sent: u64, bytes_received: u64 },
}

impl View for ControlFrame {
    type V = FrameView;

    open spec fn view(&self) -> FrameView {
        match self {
            ControlFrame::Connect { user_id } => FrameView::Connect { user_id: user_id@ },
            ControlFrame::Accept { session_info } => FrameView::Accept {
                session_info: session_info@,
            },
            ControlFrame::Reject { reason } => FrameView::Reject { reason: reason@ },
            ControlFrame::StatsReport { latency_ms, bytes_sent, bytes_received } => {
                FrameView::StatsReport {
                    latency_ms: *latency_ms,
                    bytes_sent: *bytes_sent,
                    bytes_received: *bytes_received,
                }
            },
        }
    }
}

pub const TAG_CONNECT: u8 = 1;

pub const TAG_ACCEPT: u8 = 2;

pub const TAG_REJECT: u8 = 3;

pub const TAG_STATS: u8 = 4;

/// The eight big-endian bytes of a 64-bit counter.
pub open spec fn be_bytes_of_u64(x: u64) -> Seq<u8> {
    seq![
        (x >> 56) as u8,
        (x >> 48) as u8,
        (x >> 40) as u8,
        (x >> 32) as u8,
        (x >> 24) as u8,
        (x >> 16) as u8,
        (x >> 8) as u8,
        x as u8,
    ]
}

/// The 64-bit counter spelled by eight big-endian bytes.
pub open spec fn u64_of_be_bytes(b: Seq<u8>) -> u64
    recommends
        b.len() == 8,
{
    ((b[0] as u64) << 56) | ((b[1] as u64) << 48) | ((b[2] as u64) << 40) | ((b[3] as u64)
        << 32) | ((b[4] as u64) << 24) | ((b[5] as u64) << 16) | ((b[6] as u64) << 8) | (b[7]
        as u64)
}

/// Reading back the eight big-endian bytes of a counter yields the counter.
pub proof fn lemma_be_bytes_of_u64_round_trip(x: u64)
    ensures
        u64_of_be_bytes(be_bytes_of_u64(x)) == x,
{
    assert((((x >> 56) as u8 as u64) << 56) | (((x >> 48) as u8 as u64) << 48) | (((x >> 40)
        as u8 as u64) << 40) | (((x >> 32) as u8 as u64) << 32) | (((x >> 24) as u8 as u64)
        << 24) | (((x >> 16) as u8 as u64) << 16) | (((x >> 8) as u8 as u64) << 8) | (x as u8
        as u64) == x) by (bit_vector);
}

/// The body bytes of a control frame: a one-byte tag, then the fields.
/// Strings travel as UTF-8; counters as eight big-endian bytes each.
pub open spec fn frame_bytes(f: FrameView) -> Seq<u8> {
    match f {
        FrameView::Connect { user_id } => seq![TAG_CONNECT] + encode_utf8(user_id),
        FrameView::Accept { session_info } => seq![TAG_ACCEPT] + session_info,
        FrameView::Reject { reason } => seq![TAG_REJECT] + encode_utf8(reason),
        FrameView::StatsReport { latency_ms, bytes_sent, bytes_received } => {
            seq![TAG_STATS] + be_bytes_of_u64(latency_ms) + be_bytes_of_u64(bytes_sent)
                + be_bytes_of_u64(bytes_received)
        },
    }
}

/// What a body means as a control frame; `None` when no frame has these
/// bytes: an unknown tag, a string field that is not UTF-8, or a statistics
/// body whose length is not exactly three counters.
pub open spec fn parse_frame(b: Seq<u8>) -> Option<FrameView> {
    if b.len() < 1 {
        None
    } else if b[0] == TAG_CONNECT {
        if valid_utf8(b.skip(1)) {
            Some(FrameView::Connect { user_id: decode_utf8(b.skip(1)) })
        } else {
            None
        }
    } else if b[0] == TAG_ACCEPT {
        Some(FrameView::Accept { session_info: b.skip(1) })
    } else if b[0] == TAG_REJECT {
        if valid_utf8(b.skip(1)) {
            Some(FrameView::Reject { reason: decode_utf8(b.skip(1)) })
        } else {
            None
        }
    } else if b[0] == TAG_STATS {
        if b.len() == 25 {
            Some(
                FrameView::StatsReport {
                    latency_ms: u64_of_be_bytes(b.subrange(1, 9)),
                    bytes_sent: u64_of_be_bytes(b.subrange(9, 17)),
                    bytes_received: u64_of_be_bytes(b.subrange(17, 25)),
                },
            )
        } else {
            None
        }
    } else {
        None
    }
}

/// A control frame's body parses back to exactly the frame it was built
/// from: the codec loses nothing and confuses no two frames.
pub proof fn lemma_frame_round_trip(f: FrameView)
    ensures
        parse_frame(frame_bytes(f)) == Some(f),
{
    let b = frame_bytes(f);
    match f {
        FrameView::Connect { user_id } => {
            assert(b.skip(1) =~= encode_utf8(user_id));
            encode_utf8_valid_utf8(user_id);
            encode_utf8_decode_utf8(user_id);
        },
        FrameView::Accept { session_info } => {
            assert(b.skip(1) =~= session_info);
        },
        FrameView::Reject { reason } => {
            assert(b.skip(1) =~= encode_utf8(reason));
            encode_utf8_valid_utf8(reason);
            encode_utf8_decode_utf8(reason);
        },
        FrameView::StatsReport { latency_ms, bytes_sent, bytes_received } => {
            assert(b.subrange(1, 9) =~= be_bytes_of_u64(latency_ms));
            assert(b.subrange(9, 17) =~= be_bytes_of_u64(bytes_sent));
            assert(b.subrange(17, 25) =~= be_bytes_of_u64(bytes_received));
            lemma_be_bytes_of_u64_round_trip(latency_ms);
            lemma_be_bytes_of_u64_round_trip(bytes_sent);
            lemma_be_bytes_of_u64_round_trip(bytes_received);
        },
    }
}

/// Appends the eight big-endian bytes of a counter.
fn push_u64_be(out: &mut Vec<u8>, x: u64)
    ensures
        final(out)@ == old(out)@ + be_bytes_of_u64(x),
{
    out.push(#[verifier::truncate] ((x >> 56) as u8));
    out.push(#[verifier::truncate] ((x >> 48) as u8));
    out.push(#[verifier::truncate] ((x >> 40) as u8));
    out.push(#[verifier::truncate] ((x >> 32) as u8));
    out.push(#[verifier::truncate] ((x >> 24) as u8));
    out.push(#[verifier::truncate] ((x >> 16) as u8));
    out.push(#[verifier::truncate] ((x >> 8) as u8));
    out.push(#[verifier::truncate] (x as u8));
    proof {
        assert(out@ =~= old(out)@ + be_bytes_of_u64(x));
    }
}

/// Encodes a control frame's body.
pub fn encode_control_frame(frame: &ControlFrame) -> (r: Vec<u8>)
    ensures
        r@ == frame_bytes(frame@),
{
    let mut out: Vec<u8> = Vec::new();
    match frame {
        ControlFrame::Connect { user_id } => {
            out.push(TAG_CONNECT);
            let bytes = user_id.as_str().as_bytes_vec();
            out.extend_from_slice(bytes.as_slice());
        },
        ControlFrame::Accept { session_info } => {
            out.push(TAG_ACCEPT);
            out.extend_from_slice(session_info.as_slice());
        },
        ControlFrame::Reject { reason } => {
            out.push(TAG_REJECT);
            let bytes = reason.as_str().as_bytes_vec();
            out.extend_from_slice(bytes.as_slice());
        },
        ControlFrame::StatsReport { latency_ms, bytes_sent, bytes_received } => {
            out.push(TAG_STATS);
            push_u64_be(&mut out, *latency_ms);
            push_u64_be(&mut out, *bytes_sent);
            push_u64_be(&mut out, *bytes_received);
        },
    }
    proof {
        assert(out@ =~= frame_bytes(frame@));
    }
    out
}

/// Relies on `String::from_utf8`: it succeeds exactly on valid UTF-8 input,
/// and then yields the character sequence those bytes encode.
#[verifier::external_body]
fn string_from_utf8(bytes: Vec<u8>) -> (r: Option<String>)
    ensures
        r is Some <==> valid_utf8(bytes@),
        r matches Some(s) ==> s@ == decode_utf8(bytes@),
{
    match String::from_utf8(bytes) {
        Ok(s) => Some(s),
        Err(_) => None,
    }
}

/// Copies `data[from..]` into a fresh vector.
fn tail_vec(data: &[u8], from: usize) -> (r: Vec<u8>)
    requires
        from <= data@.len(),
    ensures
        r@ == data@.skip(from as int),
{
    let mut out: Vec<u8> = Vec::with_capacity(data.len() - from);
    let mut i: usize = from;
    while i < data.len()
        invariant
            from <= i <= data@.len(),
            out@ == data@.subrange(from as int, i as int),
        decreases data@.len() - i,
    {
        out.push(data[i]);
        i = i + 1;
        proof {
            assert(out@ =~= data@.subrange(from as int, i as int));
        }
    }
    proof {
        assert(out@ =~= data@.skip(from as int));
    }
    out
}

/// Reads the eight big-endian bytes at `data[at..at + 8]` as one counter.
fn read_u64_be(data: &[u8], at: usize) -> (r: u64)
    requires
        at + 8 <= data@.len(),
    ensures
        r == u64_of_be_bytes(data@.subrange(at as int, at + 8)),
{
    let r = ((data[at] as u64) << 56) | ((data[at + 1] as u64) << 48) | ((data[at + 2] as u64)
        << 40) | ((data[at + 3] as u64) << 32) | ((data[at + 4] as u64) << 24) | ((data[at + 5]
        as u64) << 16) | ((data[at + 6] as u64) << 8) | (data[at + 7] as u64);
    proof {
        let b = data@.subrange(at as int, at + 8);
        assert(b[0] == data@[at as int] && b[1] == data@[at + 1] && b[2] == data@[at + 2] && b[3]
            == data@[at + 3] && b[4] == data@[at + 4] && b[5] == data@[at + 5] && b[6] == data@[at
            + 6] && b[7] == data@[at + 7]);
    }
    r
}

/// Decodes a control frame's body; `None` exactly when no frame has these
/// bytes.
pub fn decode_control_frame(data: &[u8]) -> (r: Option<ControlFrame>)
    ensures
        parse_frame(data@) is None ==> r is None,
        parse_frame(data@) matches Some(m) ==> (r matches Some(f) && f@ == m),
{
    if data.len() < 1 {
        return None;
    }
    let tag = data[0];
    if tag == TAG_CONNECT {
        let rest = tail_vec(data, 1);
        match string_from_utf8(rest) {
            Some(user_id) => Some(ControlFrame::Connect { user_id }),
            None => None,
        }
    } else if tag == TAG_ACCEPT {
        let session_info = tail_vec(data, 1);
        Some(ControlFrame::Accept { session_info })
    } else if tag == TAG_REJECT {
        let rest = tail_vec(data, 1);
        match string_from_utf8(rest) {
            Some(reason) => Some(ControlFrame::Reject { reason }),
            None => None,
        }
    } else if tag == TAG_STATS {
        if data.len() == 25 {
            Some(
                ControlFrame::StatsReport {
                    latency_ms: read_u64_be(data, 1),
                    bytes_sent: read_u64_be(data, 9),
                    bytes_received: read_u64_be(data, 17),
                },
            )
        } else {
            None
        }
    } else {
        None
    }
}

/// Wraps a control frame body for the ordered stream: a four-byte big-endian
/// length, then the body.  A body over [`MAX_FRAME_SIZE`] is refused, never
/// truncated.
pub fn frame_control_message(body: &[u8]) -> (r: Result<Vec<u8>, NetworkError>)
    ensures
        body@.len() <= MAX_FRAME_SIZE ==> (r matches Ok(v) && v@ == be_bytes_of_u32(
            body@.len() as u32,
        ) + body@),
        body@.len() > MAX_FRAME_SIZE ==> r == Err::<Vec<u8>, NetworkError>(
            NetworkError::FrameTooLarge,
        ),
{
    if body.len() > MAX_FRAME_SIZE {
        return Err(NetworkError::FrameTooLarge);
    }
    Ok(crate::envelope::encode_envelope(body.len() as u32, body))
}

/// Reads a length prefix from its four big-endian bytes; a length over
/// [`MAX_FRAME_SIZE`] is a hard failure.
pub fn read_control_length(b0: u8, b1: u8, b2: u8, b3: u8) -> (r: Result<usize, NetworkError>)
    ensures
        u32_of_be_bytes(b0, b1, b2, b3) <= MAX_FRAME_SIZE ==> r == Ok::<usize, NetworkError>(
            u32_of_be_bytes(b0, b1, b2, b3) as usize,
        ),
        u32_of_be_bytes(b0, b1, b2, b3) > MAX_FRAME_SIZE ==> r == Err::<usize, NetworkError>(
            NetworkError::FrameTooLarge,
        ),
{
    let len = ((b0 as u32) << 24) | ((b1 as u32) << 16) | ((b2 as u32) << 8) | (b3 as u32);
    if (len as usize) > MAX_FRAME_SIZE {
        Err(NetworkError::FrameTooLarge)
    } else {
        Ok(len as usize)
    }
}

} // verus!
