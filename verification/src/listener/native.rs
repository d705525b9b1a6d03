//! The native protocol: frames of a four-byte length and a JSON batch, one acknowledgement
//! byte each.

use vstd::prelude::*;

use crate::keycodec;
use crate::keycodec::from_be_bytes;

verus! {

/// The longest frame that is read.
pub const MAX_FRAME_BYTES: usize = 16 * 1024 * 1024;

/// The most connections that are served at a time.
pub const MAX_CONCURRENT_CONNECTIONS: usize = 1024;

/// The acknowledgement of a batch that is stored.
pub const ACK_OK: u8 = 1;

/// The acknowledgement of a batch that is not.
pub const ACK_ERR: u8 = 0;

/// What the length of a frame asks for.
#[derive(Debug, Clone, Copy, PartialEq, Eq, Structural)]
pub enum Frame {
    /// Read that many bytes.
    Read(usize),
    /// The frame is too long: refuse it and close the connection.
    Refuse(usize),
}

/// What a frame of that length asks for: to read it, or to refuse it.
pub open spec fn is_read(len: nat) -> bool {
    len <= MAX_FRAME_BYTES
}

/// Reads the length of a frame. A frame that is too long is refused before anything is
/// allocated for it.
pub fn read_length(prefix: &[u8]) -> (r: Frame)
    requires
        prefix@.len() == 4,
    ensures
        match r {
            Frame::Read(n) => n == keycodec::be_value(prefix@) && n <= MAX_FRAME_BYTES,
            Frame::Refuse(n) => n == keycodec::be_value(prefix@) && n > MAX_FRAME_BYTES,
        },
        r is Read <==> keycodec::be_value(prefix@) <= 16_777_216,
        r is Read <==> is_read(keycodec::be_value(prefix@)),
{
    assert(prefix@.take(4) =~= prefix@);
    proof {
        keycodec::lemma_four_bytes(prefix@);
    }
    let n: usize = from_be_bytes(prefix, 4) as usize;
    if n > MAX_FRAME_BYTES {
        Frame::Refuse(n)
    } else {
        Frame::Read(n)
    }
}

/// What is written back for a batch.
pub fn acknowledge(stored: bool) -> (r: u8)
    ensures
        r == if stored {
            ACK_OK
        } else {
            ACK_ERR
        },
        r == 1 <==> stored,
        r == 0 <==> !stored,
{
    if stored {
        ACK_OK
    } else {
        ACK_ERR
    }
}

/// One more connection can be served.
pub open spec fn has_room(open_connections: nat, capacity: nat) -> bool {
    open_connections < capacity
}

/// Whether a new connection is served while that many are.
pub fn admits(open_connections: usize, capacity: usize) -> (r: bool)
    ensures
        r == (open_connections < capacity),
        r == has_room(open_connections as nat, capacity as nat),
{
    open_connections < capacity
}

/// The length of a frame is its four bytes, the most significant first.
pub proof fn law_length_is_read_from_the_left(a: u8, b: u8, c: u8, d: u8)
    ensures
        keycodec::be_value(seq![a, b, c, d]) == a * 0x100_0000 + b * 0x1_0000 + c * 0x100 + d,
{
    let none = Seq::<u8>::empty();
    keycodec::law_bytes_are_read_in_order(none, a);
    keycodec::law_bytes_are_read_in_order(none.push(a), b);
    keycodec::law_bytes_are_read_in_order(none.push(a).push(b), c);
    keycodec::law_bytes_are_read_in_order(none.push(a).push(b).push(c), d);
    assert(seq![a, b, c, d] =~= none.push(a).push(b).push(c).push(d));
}

/// Just as many connections are served at a time as there is capacity for: each is admitted
/// until they are that many, and none beyond.
pub proof fn law_connections_up_to_capacity(open_connections: nat, capacity: nat)
    ensures
        open_connections + 1 <= capacity ==> has_room(open_connections, capacity),
        !has_room(capacity, capacity),
        has_room(open_connections, capacity) ==> open_connections + 1 <= capacity,
{
}

/// A frame of up to 16 MiB is read, and a longer one is refused.
pub proof fn law_frames_up_to_the_limit(len: nat)
    ensures
        is_read(len) <==> len <= 0x100_0000,
{
}

} // verus!
