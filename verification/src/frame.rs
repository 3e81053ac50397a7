//! The self-describing frame each page is stored in: magic, CRC-32 of the
//! payload, payload length, padding to a fixed header size, the payload,
//! zero-padding to the page size. A frame whose magic or CRC does not match
//! is treated as absent — never written, or torn — rather than as an error.

use vstd::prelude::*;

use crate::bytes::{
    lemma_u32_le_roundtrip, read_u32_le, push_u32_le, spec_u32_from_le, spec_u32_le,
};
use crate::codec::{copy_range, push_bytes, MAX_PAYLOAD_LEN};

verus! {

/// Every valid frame starts with these four bytes.
pub const MAGIC: u32 = 0x4c6e4861;

/// Fixed length of the frame header; the payload starts here.
pub const HEADER_LEN: usize = 32;

/// Fixed size of every frame, and the unit of device addressing.
pub const PAGE_SIZE: usize = 4096;

/// What `crc32` returns: a function of the bytes alone.
pub uninterp spec fn crc32_of(data: Seq<u8>) -> u32;

/// Relies on `crc32fast::hash`: the CRC-32 checksum of `data`, which depends
/// on the bytes alone.
#[verifier::external_body]
pub(crate) fn crc32(data: &[u8]) -> (r: u32)
    ensures
        r == crc32_of(data@),
{
    crc32fast::hash(data)
}

/// `n` zero bytes.
pub open spec fn zeros(n: nat) -> Seq<u8> {
    Seq::new(n, |i: int| 0u8)
}

/// The frame that carries `payload`.
#[verifier::opaque]
pub open spec fn spec_frame(payload: Seq<u8>) -> Seq<u8> {
    spec_u32_le(MAGIC) + spec_u32_le(crc32_of(payload)) + spec_u32_le(payload.len() as u32)
        + zeros((HEADER_LEN - 12) as nat) + payload + zeros(
        (PAGE_SIZE - HEADER_LEN - payload.len()) as nat,
    )
}

/// The payload of a valid frame; `None` for anything torn, stale or never
/// written.
#[verifier::opaque]
pub open spec fn spec_parse_frame(b: Seq<u8>) -> Option<Seq<u8>> {
    if b.len() != PAGE_SIZE {
        None
    } else {
        let magic = spec_u32_from_le(b[0], b[1], b[2], b[3]);
        let crc = spec_u32_from_le(b[4], b[5], b[6], b[7]);
        let len = spec_u32_from_le(b[8], b[9], b[10], b[11]);
        if magic != MAGIC || len > MAX_PAYLOAD_LEN {
            None
        } else {
            let payload = b.subrange(HEADER_LEN as int, HEADER_LEN + len);
            if crc == crc32_of(payload) {
                Some(payload)
            } else {
                None
            }
        }
    }
}

/// Append `n` zero bytes to `out`.
pub fn push_zeros(out: &mut Vec<u8>, n: usize)
    ensures
        final(out)@ == old(out)@ + zeros(n as nat),
{
    let mut i: usize = 0;
    while i < n
        invariant
            i <= n,
            out@ == old(out)@ + zeros(i as nat),
        decreases n - i,
    {
        out.push(0);
        assert(out@ =~= old(out)@ + zeros((i + 1) as nat));
        i = i + 1;
    }
    assert(out@ =~= old(out)@ + zeros(n as nat));
}

/// Build the page-sized frame around `payload`.
pub fn build_frame(payload: &[u8]) -> (r: Vec<u8>)
    requires
        payload@.len() <= MAX_PAYLOAD_LEN,
    ensures
        r@ == spec_frame(payload@),
        r@.len() == PAGE_SIZE,
{
    proof {
        reveal(spec_frame);
    }
    let mut out: Vec<u8> = Vec::new();
    push_u32_le(&mut out, MAGIC);
    let crc = crc32(payload);
    push_u32_le(&mut out, crc);
    push_u32_le(&mut out, payload.len() as u32);
    push_zeros(&mut out, HEADER_LEN - 12);
    push_bytes(&mut out, payload);
    push_zeros(&mut out, PAGE_SIZE - HEADER_LEN - payload.len());
    proof {
        assert(out@ =~= spec_frame(payload@));
    }
    out
}

/// Check and strip the frame around a raw page-sized block.
pub fn parse_frame(buf: &[u8]) -> (r: Option<Vec<u8>>)
    requires
        buf@.len() == PAGE_SIZE,
    ensures
        match r {
            Some(p) => spec_parse_frame(buf@) == Some(p@),
            None => spec_parse_frame(buf@) is None,
        },
{
    proof {
        reveal(spec_parse_frame);
    }
    let magic = read_u32_le(buf, 0);
    if magic != MAGIC {
        return None;
    }
    let crc = read_u32_le(buf, 4);
    let len32 = read_u32_le(buf, 8);
    if len32 > MAX_PAYLOAD_LEN as u32 {
        return None;
    }
    let len = len32 as usize;
    let payload = copy_range(buf, HEADER_LEN, len);
    let calc = crc32(payload.as_slice());
    if crc != calc {
        return None;
    }
    Some(payload)
}

/// A frame built around a payload parses back to exactly that payload.
pub proof fn lemma_frame_roundtrip(payload: Seq<u8>)
    requires
        payload.len() <= MAX_PAYLOAD_LEN,
    ensures
        spec_parse_frame(spec_frame(payload)) == Some(payload),
{
    reveal(spec_frame);
    reveal(spec_parse_frame);
    let b = spec_frame(payload);
    assert(b.len() == PAGE_SIZE);
    lemma_u32_le_roundtrip(MAGIC);
    lemma_u32_le_roundtrip(crc32_of(payload));
    lemma_u32_le_roundtrip(payload.len() as u32);
    assert(b[0] == spec_u32_le(MAGIC)[0] && b[1] == spec_u32_le(MAGIC)[1] && b[2] == spec_u32_le(
        MAGIC,
    )[2] && b[3] == spec_u32_le(MAGIC)[3]);
    assert(b[4] == spec_u32_le(crc32_of(payload))[0] && b[5] == spec_u32_le(crc32_of(payload))[1]
        && b[6] == spec_u32_le(crc32_of(payload))[2] && b[7] == spec_u32_le(crc32_of(payload))[3]);
    assert(b[8] == spec_u32_le(payload.len() as u32)[0] && b[9] == spec_u32_le(
        payload.len() as u32,
    )[1] && b[10] == spec_u32_le(payload.len() as u32)[2] && b[11] == spec_u32_le(
        payload.len() as u32,
    )[3]);
    assert(b.subrange(HEADER_LEN as int, HEADER_LEN + payload.len()) =~= payload);
}

/// A page that was never written reads as all zeroes, and a zero block is
/// no frame: its magic does not match.
pub proof fn lemma_zero_frame_absent()
    ensures
        spec_parse_frame(zeros(PAGE_SIZE as nat)) is None,
{
    reveal(spec_parse_frame);
    let b = zeros(PAGE_SIZE as nat);
    assert(spec_u32_from_le(0u8, 0u8, 0u8, 0u8) == 0u32) by (bit_vector);
    assert(b[0] == 0u8 && b[1] == 0u8 && b[2] == 0u8 && b[3] == 0u8);
}

} // verus!
