//! Wire envelope shared by bidirectional requests, one-shot notifications and
//! datagrams: a four-byte big-endian channel identifier followed by an opaque
//! payload.

use vstd::prelude::*;

verus! {

/// Hard ceiling on the size of any frame read from the peer.  A response or
/// inbound frame larger than this is a failure, never a truncation.
pub const MAX_FRAME_SIZE: usize = 10 * 1024 * 1024;

/// The four big-endian bytes of a channel identifier.
pub open spec fn be_bytes_of_u32(id: u32) -> Seq<u8> {
    seq![(id >> 24) as u8, (id >> 16) as u8, (id >> 8) as u8, id as u8]
}

/// The channel identifier spelled by four big-endian bytes.
pub open spec fn u32_of_be_bytes(b0: u8, b1: u8, b2: u8, b3: u8) -> u32 {
    ((b0 as u32) << 24) | ((b1 as u32) << 16) | ((b2 as u32) << 8) | (b3 as u32)
}

/// The envelope laid around a payload: channel identifier, then payload.
pub open spec fn envelope_bytes(id: u32, payload: Seq<u8>) -> Seq<u8> {
    be_bytes_of_u32(id) + payload
}

/// What a byte string means as an envelope: `None` when it is too short to
/// carry an identifier, otherwise the identifier and the remaining payload.
pub open spec fn parse_envelope(data: Seq<u8>) -> Option<(u32, Seq<u8>)> {
    if data.len() < 4 {
        None
    } else {
        Some((u32_of_be_bytes(data[0], data[1], data[2], data[3]), data.skip(4)))
    }
}

/// Reading back the four big-endian bytes of an identifier yields the
/// identifier.
pub proof fn lemma_be_bytes_round_trip(id: u32)
    ensures
        u32_of_be_bytes(
            (id >> 24) as u8,
            (id >> 16) as u8,
            (id >> 8) as u8,
            id as u8,
        ) == id,
{
    assert((((id >> 24) as u8 as u32) << 24) | (((id >> 16) as u8 as u32) << 16) | (((id >> 8)
        as u8 as u32) << 8) | (id as u8 as u32) == id) by (bit_vector);
}

/// An envelope parses back to exactly the identifier and payload it was built
/// from.
pub proof fn lemma_envelope_round_trip(id: u32, payload: Seq<u8>)
    ensures
        parse_envelope(envelope_bytes(id, payload)) == Some((id, payload)),
{
    let data = envelope_bytes(id, payload);
    lemma_be_bytes_round_trip(id);
    assert(data.skip(4) =~= payload);
}

/// Lays the envelope around a payload: the channel identifier as four
/// big-endian bytes, then the payload unchanged.
pub fn encode_envelope(id: u32, payload: &[u8]) -> (r: Vec<u8>)
    requires
        payload@.len() + 4 <= usize::MAX,
    ensures
        r@ == envelope_bytes(id, payload@),
{
    let mut out: Vec<u8> = Vec::with_capacity(4 + payload.len());
    out.push(#[verifier::truncate] ((id >> 24) as u8));
    out.push(#[verifier::truncate] ((id >> 16) as u8));
    out.push(#[verifier::truncate] ((id >> 8) as u8));
    out.push(#[verifier::truncate] (id as u8));
    out.extend_from_slice(payload);
    proof {
        assert(out@ =~= envelope_bytes(id, payload@));
    }
    out
}

/// Splits an envelope into its channel identifier and payload; `None` when
/// the data is too short to carry an identifier.
pub fn decode_envelope(data: &[u8]) -> (r: Option<(u32, Vec<u8>)>)
    ensures
        parse_envelope(data@) is None ==> r is None,
        parse_envelope(data@) matches Some(p) ==> (r matches Some(q) && q.0 == p.0 && q.1@
            == p.1),
{
    if data.len() < 4 {
        return None;
    }
    let id = ((data[0] as u32) << 24) | ((data[1] as u32) << 16) | ((data[2] as u32) << 8) | (
    data[3] as u32);
    let mut payload: Vec<u8> = Vec::with_capacity(data.len() - 4);
    let mut i: usize = 4;
    while i < data.len()
        invariant
            4 <= i <= data@.len(),
            payload@ == data@.subrange(4, i as int),
        decreases data@.len() - i,
    {
        payload.push(data[i]);
        i = i + 1;
        proof {
            assert(payload@ =~= data@.subrange(4, i as int));
        }
    }
    proof {
        assert(payload@ =~= data@.skip(4));
    }
    Some((id, payload))
}

} // verus!
