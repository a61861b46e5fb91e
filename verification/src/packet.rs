//! The packet layer: a single type-tagged, length-prefixed unit.
//!
//! Wire layout: one byte of `packet_type`, two bytes of `length` in
//! little-endian order, then exactly `length` payload bytes.

use vstd::prelude::*;

verus! {

use crate::DecoderError;

/// Why decoding a single packet failed.
#[derive(Debug, Clone, Copy, PartialEq, Eq)]
pub enum PacketDecoderError {
    /// Fewer than 3 bytes were available: the header cannot be read.
    InvalidPacket,
    /// The declared payload length exceeds the bytes after the header.
    InvalidPayload,
}

impl From<PacketDecoderError> for DecoderError {
    fn from(error: PacketDecoderError) -> (r: Self) {
        DecoderError::Packet(error)
    }
}

impl vstd::std_specs::convert::FromSpecImpl<PacketDecoderError> for DecoderError {
    open spec fn obeys_from_spec() -> bool {
        true
    }

    open spec fn from_spec(error: PacketDecoderError) -> Self {
        DecoderError::Packet(error)
    }
}

impl PacketDecoderError {
    /// A short human-readable description of the error.
    pub fn message(&self) -> (r: &'static str)
        ensures
            r@ == match self {
                PacketDecoderError::InvalidPacket => "Invalid packet"@,
                PacketDecoderError::InvalidPayload => "Invalid payload"@,
            },
    {
        match self {
            PacketDecoderError::InvalidPacket => "Invalid packet",
            PacketDecoderError::InvalidPayload => "Invalid payload",
        }
    }
}

/// The mathematical model of a packet: what a `Packet` views to.
#[verifier::ext_equal]
pub struct SpecPacket {
    pub packet_type: u8,
    pub length: u16,
    pub payload: Seq<u8>,
}

impl SpecPacket {
    /// The length field is derived, never independently supplied: it always
    /// equals the payload's byte length. Since `length` is 16 bits, a
    /// well-formed payload holds at most 65535 bytes.
    pub open spec fn wf(self) -> bool {
        self.length == self.payload.len()
    }
}

/// The end-of-frame sentinel: type 0, length 0, empty payload.
pub open spec fn spec_eof_packet() -> SpecPacket {
    SpecPacket { packet_type: 0, length: 0, payload: Seq::empty() }
}

/// The exact byte encoding of a packet: the type tag, the length in
/// little-endian order, then the payload verbatim.
pub open spec fn spec_packet_bytes(p: SpecPacket) -> Seq<u8> {
    seq![p.packet_type, (p.length & 0xff) as u8, (p.length >> 8) as u8] + p.payload
}

/// The length field read from a packet header: low byte first.
pub open spec fn spec_packet_length(bytes: Seq<u8>) -> u16
    recommends
        bytes.len() >= 3,
{
    (bytes[1] as u16) | ((bytes[2] as u16) << 8)
}

/// What decoding a byte slice as one packet yields: the header must fit,
/// the declared payload must fit, and the packet holds exactly the declared
/// byte range. Trailing bytes beyond `3 + length` are ignored.
pub open spec fn spec_packet_decode(bytes: Seq<u8>) -> Result<SpecPacket, PacketDecoderError> {
    if bytes.len() < 3 {
        Err(PacketDecoderError::InvalidPacket)
    } else if bytes.len() < 3 + spec_packet_length(bytes) {
        Err(PacketDecoderError::InvalidPayload)
    } else {
        Ok(
            SpecPacket {
                packet_type: bytes[0],
                length: spec_packet_length(bytes),
                payload: bytes.subrange(3, 3 + spec_packet_length(bytes) as int),
            },
        )
    }
}

/// Splitting a 16-bit length into its two wire bytes and reassembling them
/// little-endian gives the length back.
pub(crate) proof fn lemma_length_bytes_round_trip(x: u16)
    by (bit_vector)
    ensures
        (((x & 0xff) as u8) as u16) | ((((x >> 8) as u8) as u16) << 8) == x,
{
}

/// A packet: a type tag, a derived payload length, and the payload bytes.
#[derive(Debug, Clone, PartialEq, Eq)]
pub struct Packet {
    pub packet_type: u8,
    pub length: u16,
    pub payload: Vec<u8>,
}

impl View for Packet {
    type V = SpecPacket;

    open spec fn view(&self) -> SpecPacket {
        SpecPacket {
            packet_type: self.packet_type,
            length: self.length,
            payload: self.payload@,
        }
    }
}

impl Packet {
    /// Builds a packet from a type tag and a payload, computing the length
    /// field. A payload longer than 65535 bytes cannot be represented in the
    /// 16-bit length field and is a caller contract violation. The reserved
    /// tag 0 is not rejected here; a content packet carrying it decodes as
    /// the end-of-frame sentinel (a known limitation of the format).
    pub fn new(packet_type: u8, payload: Vec<u8>) -> (r: Self)
        requires
            payload@.len() <= 65535,
        ensures
            r@ == (SpecPacket { packet_type, length: payload@.len() as u16, payload: payload@ }),
            r@.wf(),
    {
        let length = payload.len() as u16;
        Packet { packet_type, length, payload }
    }

    /// The end-of-frame sentinel packet.
    pub fn eof() -> (r: Self)
        ensures
            r@ == spec_eof_packet(),
            r@.wf(),
    {
        let r = Packet { packet_type: 0, length: 0, payload: Vec::new() };
        proof {
            assert(r@ =~= spec_eof_packet());
        }
        r
    }

    /// Encodes the packet into its exact wire bytes.
    pub fn to_bytes(&self) -> (r: Vec<u8>)
        ensures
            r@ == spec_packet_bytes(self@),
            r@.len() == 3 + self.payload@.len(),
    {
        proof {
            let x = self.length;
            assert(x & 0xff < 256 && x >> 8 < 256) by (bit_vector);
        }
        let lo: u8 = (self.length & 0xff) as u8;
        let hi: u8 = (self.length >> 8) as u8;
        let mut bytes: Vec<u8> = Vec::new();
        bytes.push(self.packet_type);
        bytes.push(lo);
        bytes.push(hi);
        let mut k: usize = 0;
        while k < self.payload.len()
            invariant
                k <= self.payload@.len(),
                lo == (self.length & 0xff) as u8,
                hi == (self.length >> 8) as u8,
                bytes@ == seq![self.packet_type, lo, hi] + self.payload@.take(k as int),
            decreases self.payload@.len() - k,
        {
            bytes.push(self.payload[k]);
            proof {
                assert(self.payload@.take(k + 1) =~= self.payload@.take(k as int).push(
                    self.payload@[k as int],
                ));
            }
            k = k + 1;
        }
        proof {
            assert(self.payload@.take(self.payload@.len() as int) =~= self.payload@);
            assert(bytes@ =~= spec_packet_bytes(self@));
        }
        bytes
    }

    /// Decodes one packet from the front of a byte slice. Fails with
    /// `InvalidPacket` when fewer than 3 bytes are present, and with
    /// `InvalidPayload` when the declared length exceeds the bytes that
    /// follow the header; otherwise returns exactly the decoded packet,
    /// ignoring any trailing bytes.
    pub fn from_bytes(bytes: &[u8]) -> (r: Result<Self, PacketDecoderError>)
        ensures
            match r {
                Ok(p) => spec_packet_decode(bytes@) == Ok::<SpecPacket, PacketDecoderError>(p@)
                    && p@.wf(),
                Err(e) => spec_packet_decode(bytes@) == Err::<SpecPacket, PacketDecoderError>(e),
            },
    {
        if bytes.len() < 3 {
            return Err(PacketDecoderError::InvalidPacket);
        }
        let packet_type: u8 = *vstd::slice::slice_index_get(bytes, 0);
        let b1: u8 = *vstd::slice::slice_index_get(bytes, 1);
        let b2: u8 = *vstd::slice::slice_index_get(bytes, 2);
        let length: u16 = (b1 as u16) | ((b2 as u16) << 8);
        if bytes.len() < 3 + length as usize {
            return Err(PacketDecoderError::InvalidPayload);
        }
        let payload_slice = vstd::slice::slice_subrange(bytes, 3, 3 + length as usize);
        let payload = vstd::slice::slice_to_vec(payload_slice);
        let r = Packet { packet_type, length, payload };
        proof {
            assert(r@ =~= spec_packet_decode(bytes@)->Ok_0);
        }
        Ok(r)
    }
}

/// A buffer shorter than the 3-byte header always fails packet decoding
/// with `InvalidPacket`.
pub proof fn lemma_short_buffer_invalid_packet(bytes: Seq<u8>)
    requires
        bytes.len() < 3,
    ensures
        spec_packet_decode(bytes) == Err::<SpecPacket, PacketDecoderError>(
            PacketDecoderError::InvalidPacket,
        ),
{
}

/// A buffer whose header declares more payload bytes than follow it always
/// fails packet decoding with `InvalidPayload`.
pub proof fn lemma_truncated_payload_rejected(bytes: Seq<u8>)
    requires
        bytes.len() >= 3,
        bytes.len() < 3 + spec_packet_length(bytes),
    ensures
        spec_packet_decode(bytes) == Err::<SpecPacket, PacketDecoderError>(
            PacketDecoderError::InvalidPayload,
        ),
{
}

/// Round trip at the packet level: decoding the encoding of any well-formed
/// packet gives the packet back.
pub proof fn lemma_packet_round_trip(p: SpecPacket)
    requires
        p.wf(),
    ensures
        spec_packet_decode(spec_packet_bytes(p)) == Ok::<SpecPacket, PacketDecoderError>(p),
{
    let bytes = spec_packet_bytes(p);
    assert(bytes.len() == 3 + p.payload.len());
    lemma_length_bytes_round_trip(p.length);
    assert(spec_packet_length(bytes) == p.length);
    assert(bytes.subrange(3, 3 + p.length as int) =~= p.payload);
    assert(spec_packet_decode(bytes)->Ok_0 =~= p);
}

} // verus!
