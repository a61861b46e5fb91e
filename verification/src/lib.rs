//! A small binary wire format in two layers: a `Packet` is a type-tagged,
//! length-prefixed run of bytes, and a `Frame` is an ordered list of packets
//! terminated on the wire by the reserved end-of-frame packet. The crate
//! encodes and decodes both layers and proves the byte layout, the bounds
//! checks, and the round-trip laws.

use vstd::prelude::*;

pub mod frame;
pub mod packet;

verus! {

use crate::frame::FrameDecoderError;
use crate::packet::PacketDecoderError;

/// The error surfaced by frame decoding: either a frame-level fault or a
/// packet-level fault met while walking the packets inside the frame.
#[derive(Debug, Clone, Copy, PartialEq, Eq)]
pub enum DecoderError {
    Frame(FrameDecoderError),
    Packet(PacketDecoderError),
}

impl DecoderError {
    /// A short human-readable description of the error.
    pub fn message(&self) -> (r: &'static str)
        ensures
            r@ == match self {
                DecoderError::Frame(_) => "Frame decoder error"@,
                DecoderError::Packet(_) => "Packet decoder error"@,
            },
    {
        match self {
            DecoderError::Frame(_) => "Frame decoder error",
            DecoderError::Packet(_) => "Packet decoder error",
        }
    }
}

} // verus!
