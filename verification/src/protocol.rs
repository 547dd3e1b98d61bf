//! The wire protocol between peers.
//!
//! Each message travels as a frame: its payload length as a 4-byte big-endian
//! `u32`, then the payload. The receiver reads one frame at a time without
//! guessing where a message ends.
use vstd::prelude::*;

use crate::set::OrSet;

verus! {

/// The messages exchanged between nodes.
///
/// Every gossip round sends the whole shared list; merging is idempotent, so
/// seeing the same state many times is harmless.
#[derive(Debug)]
pub enum Message {
    /// The full state of the shared shopping list.
    State(OrSet<String>),
}

impl Clone for Message {
    /// A copy carrying a copy of the same state.
    fn clone(&self) -> (r: Self)
        ensures
            match (r, *self) {
                (Message::State(a), Message::State(b)) => a@ == b@,
            },
    {
        match self {
            Message::State(list) => Message::State(list.clone()),
        }
    }
}

/// The 4-byte big-endian encoding of `n`.
pub open spec fn be_bytes(n: u32) -> Seq<u8> {
    seq![
        (n / 0x100_0000) as u8,
        ((n / 0x1_0000) % 0x100) as u8,
        ((n / 0x100) % 0x100) as u8,
        (n % 0x100) as u8,
    ]
}

/// The number that 4 big-endian bytes encode.
pub open spec fn be_value(b: Seq<u8>) -> int {
    b[0] * 0x100_0000 + b[1] * 0x1_0000 + b[2] * 0x100 + b[3]
}

/// Decoding the big-endian encoding of a number gives the number back.
pub proof fn lemma_be_roundtrip(n: u32)
    ensures
        be_value(be_bytes(n)) == n,
{
    let b0 = n / 0x100_0000;
    let b1 = (n / 0x1_0000) % 0x100;
    let b2 = (n / 0x100) % 0x100;
    let b3 = n % 0x100;
    assert(b0 < 0x100 && b1 < 0x100 && b2 < 0x100 && b3 < 0x100 && b0 * 0x100_0000 + b1 * 0x1_0000 + b2 * 0x100 + b3 == n) by (nonlinear_arith)
        requires
            0 <= n <= u32::MAX,
            b0 == n / 0x100_0000,
            b1 == (n / 0x1_0000) % 0x100,
            b2 == (n / 0x100) % 0x100,
            b3 == n % 0x100,
    ;
}

/// Frames `payload`: its length as 4 big-endian bytes, then the payload.
/// `None` when the payload is too large for a `u32` length.
pub fn encode_frame(payload: &[u8]) -> (r: Option<Vec<u8>>)
    ensures
        r is None <==> payload@.len() > u32::MAX,
        r matches Some(frame) ==> frame@ == be_bytes(payload@.len() as u32) + payload@,
{
    let n = payload.len();
    if n > 0xFFFF_FFFF {
        return None;
    }
    let len = n as u32;
    let mut frame: Vec<u8> = Vec::new();
    proof {
        assert(len / 0x100_0000 < 0x100) by (nonlinear_arith)
            requires
                len <= u32::MAX,
        ;
    }
    frame.push((len / 0x100_0000) as u8);
    frame.push(((len / 0x1_0000) % 0x100) as u8);
    frame.push(((len / 0x100) % 0x100) as u8);
    frame.push((len % 0x100) as u8);
    proof {
        assert(frame@ =~= be_bytes(len));
    }
    let mut i: usize = 0;
    while i < n
        invariant
            i <= n,
            n == payload@.len(),
            len == n,
            frame@ == be_bytes(len) + payload@.take(i as int),
        decreases n - i,
    {
        frame.push(payload[i]);
        proof {
            assert(payload@.take(i + 1) =~= payload@.take(i as int).push(payload@[i as int]));
            assert(frame@ =~= be_bytes(len) + payload@.take(i + 1));
        }
        i = i + 1;
    }
    proof {
        assert(payload@.take(n as int) =~= payload@);
    }
    Some(frame)
}

/// The payload length that a frame's 4-byte header announces.
pub fn decode_length(header: [u8; 4]) -> (r: u32)
    ensures
        r == be_value(header@),
{
    let b0 = header[0] as u32;
    let b1 = header[1] as u32;
    let b2 = header[2] as u32;
    let b3 = header[3] as u32;
    proof {
        assert(b0 * 0x100_0000 + b1 * 0x1_0000 + b2 * 0x100 + b3 <= u32::MAX) by (nonlinear_arith)
            requires
                b0 < 0x100,
                b1 < 0x100,
                b2 < 0x100,
                b3 < 0x100,
        ;
    }
    b0 * 0x100_0000 + b1 * 0x1_0000 + b2 * 0x100 + b3
}

/// The header of a frame announces the length of the payload it carries.
pub proof fn lemma_frame_announces_length(payload: Seq<u8>)
    requires
        payload.len() <= u32::MAX,
    ensures
        be_value((be_bytes(payload.len() as u32) + payload).take(4)) == payload.len(),
{
    lemma_be_roundtrip(payload.len() as u32);
    assert((be_bytes(payload.len() as u32) + payload).take(4) =~= be_bytes(payload.len() as u32));
}

} // verus!
