//! Framing on the network: a 4-byte big-endian length, then the payload.

use crate::bytes::{be_bytes, be_value, from_be_bytes, lemma_be_round_trip, to_be_bytes};
use vstd::prelude::*;

verus! {

/// Length of a frame's length prefix.
pub const FRAME_HEADER_LEN: usize = 4;

/// A length as the prefix holds it: the low 32 bits.
pub open spec fn prefix_of(len: nat) -> u32 {
    (len % 0x1_0000_0000) as u32
}

/// The bytes of a message on the network.
pub open spec fn message_frame(payload: Seq<u8>) -> Seq<u8> {
    be_bytes(prefix_of(payload.len())) + payload
}

/// The bytes to send for a message.
pub fn frame_message(payload: &[u8]) -> (frame: Vec<u8>)
    ensures
        frame@ == message_frame(payload@),
{
    let len: u32 = (payload.len() as u64 % 0x1_0000_0000) as u32;
    let header = to_be_bytes(len);
    let mut frame: Vec<u8> = Vec::new();
    frame.extend_from_slice(&header);
    frame.extend_from_slice(payload);
    assert(frame@ =~= message_frame(payload@));
    frame
}

/// How many payload bytes follow a length prefix.
pub fn payload_len(header: [u8; 4]) -> (len: usize)
    ensures
        len == be_value(header@),
{
    from_be_bytes(header) as usize
}

/// A frame that was sent is read back: its first four bytes give the length of
/// what follows, and that is the payload.
pub proof fn law_frame_round_trips(payload: Seq<u8>)
    requires
        payload.len() <= u32::MAX,
    ensures
        message_frame(payload).len() == FRAME_HEADER_LEN + payload.len(),
        be_value(message_frame(payload).take(FRAME_HEADER_LEN as int)) == payload.len(),
        message_frame(payload).skip(FRAME_HEADER_LEN as int) == payload,
{
    lemma_be_round_trip(prefix_of(payload.len()));
    assert(message_frame(payload).take(4) =~= be_bytes(prefix_of(payload.len())));
    assert(message_frame(payload).skip(4) =~= payload);
}

} // verus!
