//! The frame layer: an ordered list of packets, terminated on the wire by
//! the end-of-frame sentinel packet.

use vstd::prelude::*;

verus! {

use crate::DecoderError;
use crate::packet::Packet;
use crate::packet::PacketDecoderError;
use crate::packet::SpecPacket;
use crate::packet::spec_eof_packet;
use crate::packet::spec_packet_bytes;
use crate::packet::spec_packet_decode;
use crate::packet::lemma_length_bytes_round_trip;
use crate::packet::spec_packet_length;

/// Why decoding a frame failed at the frame level.
#[derive(Debug, Clone, Copy, PartialEq, Eq)]
pub enum FrameDecoderError {
    /// The input is shorter than 3 bytes and cannot hold even a bare
    /// end-of-frame marker.
    InvalidFrame,
    /// Reserved for a stricter decoding mode that demands an explicit
    /// terminator; the cursor-driven decoder never raises it.
    EofNotFound,
}

impl From<FrameDecoderError> for DecoderError {
    fn from(error: FrameDecoderError) -> (r: Self) {
        DecoderError::Frame(error)
    }
}

impl vstd::std_specs::convert::FromSpecImpl<FrameDecoderError> for DecoderError {
    open spec fn obeys_from_spec() -> bool {
        true
    }

    open spec fn from_spec(error: FrameDecoderError) -> Self {
        DecoderError::Frame(error)
    }
}

impl FrameDecoderError {
    /// A short human-readable description of the error.
    pub fn message(&self) -> (r: &'static str)
        ensures
            r@ == match self {
                FrameDecoderError::InvalidFrame => "Invalid frame"@,
                FrameDecoderError::EofNotFound => "EOF packet not found"@,
            },
    {
        match self {
            FrameDecoderError::InvalidFrame => "Invalid frame",
            FrameDecoderError::EofNotFound => "EOF packet not found",
        }
    }
}

/// The byte encoding of a list of packets: each packet's encoding in list
/// order, concatenated.
pub open spec fn spec_packets_bytes(pkts: Seq<SpecPacket>) -> Seq<u8>
    decreases pkts.len(),
{
    if pkts.len() == 0 {
        Seq::empty()
    } else {
        spec_packet_bytes(pkts[0]) + spec_packets_bytes(pkts.drop_first())
    }
}

/// The exact byte encoding of a frame: every packet in order, then the
/// end-of-frame sentinel's 3 bytes.
pub open spec fn spec_frame_bytes(pkts: Seq<SpecPacket>) -> Seq<u8> {
    spec_packets_bytes(pkts) + spec_packet_bytes(spec_eof_packet())
}

/// What the cursor-driven decode loop yields from position `i` on: packets
/// decoded one after another until the end-of-frame sentinel (consumed, not
/// kept) or the end of the buffer, with any packet-level error wrapped and
/// propagated.
pub open spec fn spec_decode_packets_from(bytes: Seq<u8>, i: int) -> Result<
    Seq<SpecPacket>,
    DecoderError,
>
    decreases bytes.len() - i,
{
    if i < 0 || i >= bytes.len() {
        Ok(Seq::empty())
    } else {
        match spec_packet_decode(bytes.skip(i)) {
            Err(e) => Err(DecoderError::Packet(e)),
            Ok(p) => if p.packet_type == 0 {
                Ok(Seq::empty())
            } else {
                match spec_decode_packets_from(bytes, i + 3 + p.length) {
                    Err(e) => Err(e),
                    Ok(rest) => Ok(seq![p] + rest),
                }
            },
        }
    }
}

/// What decoding a whole buffer as a frame yields: a buffer shorter than 3
/// bytes cannot hold even a bare end-of-frame marker and is rejected as
/// `InvalidFrame`; otherwise the cursor loop runs from the start.
pub open spec fn spec_frame_decode(bytes: Seq<u8>) -> Result<Seq<SpecPacket>, DecoderError> {
    if bytes.len() < 3 {
        Err(DecoderError::Frame(FrameDecoderError::InvalidFrame))
    } else {
        spec_decode_packets_from(bytes, 0)
    }
}

/// Prefixes a list of already-decoded packets onto the outcome of decoding
/// the rest of the buffer.
spec fn prepend_decoded(
    prefix: Seq<SpecPacket>,
    r: Result<Seq<SpecPacket>, DecoderError>,
) -> Result<Seq<SpecPacket>, DecoderError> {
    match r {
        Ok(rest) => Ok(prefix + rest),
        Err(e) => Err(e),
    }
}

proof fn lemma_prepend_decoded_assoc(
    a: Seq<SpecPacket>,
    b: Seq<SpecPacket>,
    r: Result<Seq<SpecPacket>, DecoderError>,
)
    ensures
        prepend_decoded(a + b, r) == prepend_decoded(a, prepend_decoded(b, r)),
{
    match r {
        Ok(rest) => {
            assert((a + b) + rest =~= a + (b + rest));
        },
        Err(_) => {},
    }
}

/// Appending one packet to a list appends its encoding to the list's bytes.
proof fn lemma_packets_bytes_push(pkts: Seq<SpecPacket>, p: SpecPacket)
    ensures
        spec_packets_bytes(pkts.push(p)) == spec_packets_bytes(pkts) + spec_packet_bytes(p),
    decreases pkts.len(),
{
    if pkts.len() == 0 {
        assert(pkts.push(p)[0] == p);
        assert(pkts.push(p).drop_first() =~= Seq::<SpecPacket>::empty());
        assert(spec_packets_bytes(Seq::<SpecPacket>::empty()) == Seq::<u8>::empty());
        assert(spec_packets_bytes(pkts.push(p)) =~= spec_packets_bytes(pkts) + spec_packet_bytes(
            p,
        ));
    } else {
        lemma_packets_bytes_push(pkts.drop_first(), p);
        assert(pkts.push(p)[0] == pkts[0]);
        assert(pkts.push(p).drop_first() =~= pkts.drop_first().push(p));
        assert(spec_packet_bytes(pkts[0]) + (spec_packets_bytes(pkts.drop_first())
            + spec_packet_bytes(p)) =~= (spec_packet_bytes(pkts[0]) + spec_packets_bytes(
            pkts.drop_first(),
        )) + spec_packet_bytes(p));
    }
}

/// A frame: an ordered list of packets. The list is the semantic content;
/// the end-of-frame sentinel exists only on the wire.
#[derive(Debug, Clone, PartialEq, Eq)]
pub struct Frame {
    packets: Vec<Packet>,
}

impl View for Frame {
    type V = Seq<SpecPacket>;

    closed spec fn view(&self) -> Seq<SpecPacket> {
        self.packets@.map_values(|p: Packet| p@)
    }
}

impl Frame {
    /// Builds a frame owning the given packets, in order.
    pub fn new(packets: Vec<Packet>) -> (r: Self)
        ensures
            r@ == packets@.map_values(|p: Packet| p@),
    {
        Frame { packets }
    }

    /// The frame's packets, in wire order.
    pub fn packets(&self) -> (r: &Vec<Packet>)
        ensures
            r@.map_values(|p: Packet| p@) == self@,
    {
        &self.packets
    }

    /// Encodes the frame: every packet's bytes in order, then the 3-byte
    /// end-of-frame sentinel.
    pub fn to_bytes(&self) -> (r: Vec<u8>)
        ensures
            r@ == spec_frame_bytes(self@),
    {
        let mut data: Vec<u8> = Vec::new();
        let mut j: usize = 0;
        while j < self.packets.len()
            invariant
                j <= self.packets@.len(),
                data@ == spec_packets_bytes(self@.take(j as int)),
            decreases self.packets@.len() - j,
        {
            let mut packet_bytes = self.packets[j].to_bytes();
            data.append(&mut packet_bytes);
            proof {
                lemma_packets_bytes_push(self@.take(j as int), self@[j as int]);
                assert(self@.take(j + 1) =~= self@.take(j as int).push(self@[j as int]));
            }
            j = j + 1;
        }
        let mut eof_bytes = Packet::eof().to_bytes();
        data.append(&mut eof_bytes);
        proof {
            assert(self@.take(self.packets@.len() as int) =~= self@);
        }
        data
    }

    /// Decodes a frame. A buffer shorter than 3 bytes fails with
    /// `InvalidFrame`; a packet-level fault is wrapped and propagated;
    /// otherwise the packets before the end-of-frame sentinel (or before the
    /// end of the buffer, when no sentinel appears) are returned in order,
    /// the sentinel itself consumed and never kept.
    pub fn from_bytes(data: &[u8]) -> (r: Result<Self, DecoderError>)
        ensures
            match r {
                Ok(f) => spec_frame_decode(data@) == Ok::<Seq<SpecPacket>, DecoderError>(f@)
                    && (forall|k: int|
                    0 <= k < f@.len() ==> (#[trigger] f@[k]).packet_type != 0 && f@[k].wf()),
                Err(e) => spec_frame_decode(data@) == Err::<Seq<SpecPacket>, DecoderError>(e),
            },
    {
        if data.len() < 3 {
            return Err(DecoderError::Frame(FrameDecoderError::InvalidFrame));
        }
        let ghost all = data@;
        let mut packets: Vec<Packet> = Vec::new();
        let mut i: usize = 0;
        while i < data.len()
            invariant
                i <= all.len(),
                all.len() >= 3,
                all == data@,
                forall|k: int|
                    0 <= k < packets@.len() ==> (#[trigger] packets@[k])@.packet_type != 0
                        && packets@[k]@.wf(),
                spec_decode_packets_from(all, 0) == prepend_decoded(
                    packets@.map_values(|p: Packet| p@),
                    spec_decode_packets_from(all, i as int),
                ),
            decreases all.len() - i,
        {
            let rest = vstd::slice::slice_subrange(data, i, data.len());
            proof {
                assert(rest@ == all.skip(i as int));
            }
            let packet = match Packet::from_bytes(rest) {
                Ok(p) => p,
                Err(e) => {
                    proof {
                        assert(spec_decode_packets_from(all, i as int) == Err::<
                            Seq<SpecPacket>,
                            DecoderError,
                        >(DecoderError::Packet(e)));
                    }
                    return Err(DecoderError::Packet(e));
                },
            };
            if packet.packet_type == 0 {
                proof {
                    assert(spec_decode_packets_from(all, i as int) == Ok::<
                        Seq<SpecPacket>,
                        DecoderError,
                    >(Seq::empty()));
                    assert(packets@.map_values(|p: Packet| p@) + Seq::<SpecPacket>::empty()
                        =~= packets@.map_values(|p: Packet| p@));
                }
                return Ok(Frame { packets });
            }
            proof {
                assert(all.skip(i as int).len() >= 3 + packet@.length);
            }
            let ghost prev = packets@.map_values(|p: Packet| p@);
            let ghost next_i = i + 3 + packet.length as int;
            proof {
                assert(spec_decode_packets_from(all, i as int) == prepend_decoded(
                    seq![packet@],
                    spec_decode_packets_from(all, next_i),
                ));
                lemma_prepend_decoded_assoc(
                    prev,
                    seq![packet@],
                    spec_decode_packets_from(all, next_i),
                );
            }
            i = i + 3 + packet.length as usize;
            packets.push(packet);
            proof {
                assert(packets@.map_values(|p: Packet| p@) =~= prev + seq![packet@]);
            }
        }
        proof {
            assert(spec_decode_packets_from(all, i as int) == Ok::<Seq<SpecPacket>, DecoderError>(
                Seq::empty(),
            ));
            assert(packets@.map_values(|p: Packet| p@) + Seq::<SpecPacket>::empty()
                =~= packets@.map_values(|p: Packet| p@));
        }
        Ok(Frame { packets })
    }
}

/// The end-of-frame sentinel encodes as exactly the three zero bytes.
proof fn lemma_eof_packet_bytes()
    ensures
        spec_packet_bytes(spec_eof_packet()) == seq![0u8, 0u8, 0u8],
{
    assert(0u16 & 0xff == 0 && 0u16 >> 8 == 0) by (bit_vector);
    assert(spec_packet_bytes(spec_eof_packet()) =~= seq![0u8, 0u8, 0u8]);
}

/// Decoding from position `i` of a buffer whose suffix there is the exact
/// encoding of `pkts` (all well formed, none carrying the reserved tag)
/// yields `pkts` back.
proof fn lemma_decode_encoded_suffix(bytes: Seq<u8>, i: int, pkts: Seq<SpecPacket>)
    requires
        0 <= i <= bytes.len(),
        bytes.skip(i) == spec_frame_bytes(pkts),
        forall|k: int| 0 <= k < pkts.len() ==> (#[trigger] pkts[k]).wf(),
        forall|k: int| 0 <= k < pkts.len() ==> (#[trigger] pkts[k]).packet_type != 0,
    ensures
        spec_decode_packets_from(bytes, i) == Ok::<Seq<SpecPacket>, DecoderError>(pkts),
    decreases pkts.len(),
{
    let suffix = bytes.skip(i);
    lemma_eof_packet_bytes();
    if pkts.len() == 0 {
        assert(spec_packets_bytes(pkts) == Seq::<u8>::empty());
        assert(suffix =~= seq![0u8, 0u8, 0u8]);
        assert(i < bytes.len());
        assert((0u8 as u16) | ((0u8 as u16) << 8) == 0) by (bit_vector);
        assert(spec_packet_length(suffix) == 0);
        assert(spec_packet_decode(suffix) matches Ok(p) && p.packet_type == 0);
        assert(pkts =~= Seq::<SpecPacket>::empty());
    } else {
        let p0 = pkts[0];
        let rest = pkts.drop_first();
        let pb = spec_packet_bytes(p0);
        let fb = spec_frame_bytes(rest);
        assert(spec_packets_bytes(pkts) == pb + spec_packets_bytes(rest));
        assert(suffix =~= pb + fb);
        assert(p0.wf());
        assert(pb.len() == 3 + p0.payload.len());
        assert(i < bytes.len());
        assert(suffix[0] == p0.packet_type);
        assert(suffix[1] == (p0.length & 0xff) as u8);
        assert(suffix[2] == (p0.length >> 8) as u8);
        lemma_length_bytes_round_trip(p0.length);
        assert(spec_packet_length(suffix) == p0.length);
        assert(suffix.len() >= 3 + p0.length);
        assert forall|j: int| 0 <= j < p0.payload.len() implies suffix[3 + j] == p0.payload[j] by {
            assert(suffix[3 + j] == pb[3 + j]);
        }
        assert(suffix.subrange(3, 3 + p0.length as int) =~= p0.payload);
        assert(spec_packet_decode(suffix) == Ok::<SpecPacket, PacketDecoderError>(
            SpecPacket { packet_type: p0.packet_type, length: p0.length, payload: p0.payload },
        ));
        assert(spec_packet_decode(suffix)->Ok_0 =~= p0);
        let i2 = i + 3 + p0.length as int;
        assert forall|j: int| 0 <= j < fb.len() implies bytes.skip(i2)[j] == fb[j] by {
            assert(fb[j] == suffix[pb.len() + j]);
            assert(suffix[pb.len() + j] == bytes[i + pb.len() + j]);
            assert(bytes.skip(i2)[j] == bytes[i2 + j]);
        }
        assert(bytes.skip(i2) =~= fb);
        assert(forall|k: int| 0 <= k < rest.len() ==> (#[trigger] rest[k]).wf());
        assert(forall|k: int| 0 <= k < rest.len() ==> (#[trigger] rest[k]).packet_type != 0);
        lemma_decode_encoded_suffix(bytes, i2, rest);
        assert(spec_decode_packets_from(bytes, i) == Ok::<Seq<SpecPacket>, DecoderError>(
            seq![p0] + rest,
        ));
        assert(seq![p0] + rest =~= pkts);
    }
}

/// Round trip at the frame level: decoding the encoding of any frame whose
/// packets are well formed and free of the reserved tag 0 gives the packet
/// list back, in order and in full.
pub proof fn lemma_frame_round_trip(pkts: Seq<SpecPacket>)
    requires
        forall|k: int| 0 <= k < pkts.len() ==> (#[trigger] pkts[k]).wf(),
        forall|k: int| 0 <= k < pkts.len() ==> (#[trigger] pkts[k]).packet_type != 0,
    ensures
        spec_frame_decode(spec_frame_bytes(pkts)) == Ok::<Seq<SpecPacket>, DecoderError>(pkts),
{
    let bytes = spec_frame_bytes(pkts);
    lemma_eof_packet_bytes();
    assert(bytes.len() >= 3);
    assert(bytes.skip(0) =~= bytes);
    lemma_decode_encoded_suffix(bytes, 0, pkts);
}

/// A buffer shorter than 3 bytes always fails frame decoding with
/// `InvalidFrame`: it cannot hold even a bare end-of-frame marker.
pub proof fn lemma_short_buffer_invalid_frame(bytes: Seq<u8>)
    requires
        bytes.len() < 3,
    ensures
        spec_frame_decode(bytes) == Err::<Seq<SpecPacket>, DecoderError>(
            DecoderError::Frame(FrameDecoderError::InvalidFrame),
        ),
{
}

proof fn lemma_decode_from_no_eof(bytes: Seq<u8>, i: int)
    ensures
        spec_decode_packets_from(bytes, i) matches Ok(pkts) ==> forall|k: int|
            0 <= k < pkts.len() ==> (#[trigger] pkts[k]).packet_type != 0 && pkts[k].wf(),
    decreases bytes.len() - i,
{
    if 0 <= i < bytes.len() {
        match spec_packet_decode(bytes.skip(i)) {
            Err(_) => {},
            Ok(p) => {
                if p.packet_type != 0 {
                    lemma_decode_from_no_eof(bytes, i + 3 + p.length);
                    match spec_decode_packets_from(bytes, i + 3 + p.length) {
                        Ok(rest) => {
                            let pkts = seq![p] + rest;
                            assert(p.wf());
                            assert(forall|k: int|
                                0 <= k < pkts.len() ==> (#[trigger] pkts[k]).packet_type != 0
                                    && pkts[k].wf());
                        },
                        Err(_) => {},
                    }
                }
            },
        }
    }
}

/// Whatever the input bytes, a successful frame decode never keeps a packet
/// carrying the reserved end-of-frame tag 0: the sentinel is consumed as a
/// terminator, never stored.
pub proof fn lemma_frame_decode_no_eof(bytes: Seq<u8>)
    ensures
        spec_frame_decode(bytes) matches Ok(pkts) ==> forall|k: int|
            0 <= k < pkts.len() ==> (#[trigger] pkts[k]).packet_type != 0,
{
    lemma_decode_from_no_eof(bytes, 0);
}

} // verus!
