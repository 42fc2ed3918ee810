//! Pure encode/decode of the protocol's fixed-layout messages.
//!
//! A guess response is one count byte followed by that many index
//! bytes; the active-player update is a 4-byte little-endian counter.

use vstd::prelude::*;
use vstd::bytes::lemma_auto_spec_u32_to_from_le_bytes;
use vstd::bytes::spec_u32_from_le_bytes;
use vstd::bytes::spec_u32_to_le_bytes;
use vstd::bytes::u32_from_le_bytes;
use vstd::bytes::u32_to_le_bytes;

verus! {

/// Wire layout of a guess response: the number of matched positions,
/// then the positions themselves in the order the engine produced them.
pub open spec fn spec_encode_response(indexes: Seq<u8>) -> Seq<u8> {
    seq![indexes.len() as u8] + indexes
}

/// A response buffer is well formed iff it holds exactly one count
/// byte followed by that many index bytes.
pub open spec fn spec_response_well_formed(buf: Seq<u8>) -> bool {
    &&& buf.len() >= 1
    &&& buf.len() == 1 + buf[0] as int
}

pub open spec fn spec_decode_response(buf: Seq<u8>) -> Option<Seq<u8>> {
    if spec_response_well_formed(buf) {
        Some(buf.subrange(1, buf.len() as int))
    } else {
        None
    }
}

pub fn encode_guess_response(indexes: &Vec<u8>) -> (r: Vec<u8>)
    requires
        indexes@.len() <= 255,
    ensures
        r@ == spec_encode_response(indexes@),
{
    let mut r: Vec<u8> = Vec::new();
    r.push(indexes.len() as u8);
    let mut i: usize = 0;
    while i < indexes.len()
        invariant
            i <= indexes@.len() <= 255,
            r@ == seq![indexes@.len() as u8] + indexes@.take(i as int),
        decreases indexes@.len() - i,
    {
        r.push(indexes[i]);
        assert(indexes@.take(i + 1) == indexes@.take(i as int).push(indexes@[i as int]));
        i = i + 1;
    }
    assert(indexes@.take(indexes@.len() as int) == indexes@);
    r
}

pub fn decode_guess_response(buf: &Vec<u8>) -> (r: Option<Vec<u8>>)
    ensures
        r is Some <==> spec_response_well_formed(buf@),
        (match r {
            Some(indexes) => spec_decode_response(buf@) == Some(indexes@),
            None => spec_decode_response(buf@) is None,
        }),
{
    if buf.len() == 0 {
        return None;
    }
    let count = buf[0] as usize;
    if buf.len() != 1 + count {
        return None;
    }
    let mut indexes: Vec<u8> = Vec::new();
    let mut i: usize = 1;
    while i < buf.len()
        invariant
            1 <= i <= buf@.len(),
            indexes@ == buf@.subrange(1, i as int),
        decreases buf@.len() - i,
    {
        indexes.push(buf[i]);
        assert(buf@.subrange(1, i + 1) == buf@.subrange(1, i as int).push(buf@[i as int]));
        i = i + 1;
    }
    Some(indexes)
}

/// Law: decoding an encoded guess response reproduces the original
/// ordered index list, for every list of at most 255 indexes.
pub proof fn lemma_response_roundtrip(indexes: Seq<u8>)
    requires
        indexes.len() <= 255,
    ensures
        spec_decode_response(spec_encode_response(indexes)) == Some(indexes),
{
    let buf = spec_encode_response(indexes);
    assert(buf[0] == indexes.len() as u8);
    assert(buf.subrange(1, buf.len() as int) =~= indexes);
}

pub fn encode_active_count(n: u32) -> (r: Vec<u8>)
    ensures
        r@ == spec_u32_to_le_bytes(n),
        r@.len() == 4,
{
    u32_to_le_bytes(n)
}

pub fn decode_active_count(buf: &[u8]) -> (n: u32)
    requires
        buf@.len() == 4,
    ensures
        n == spec_u32_from_le_bytes(buf@),
{
    u32_from_le_bytes(buf)
}

/// Law: the 4-byte little-endian encoding of the active-player
/// counter round-trips through decoding.
pub proof fn lemma_active_count_roundtrip(n: u32)
    ensures
        spec_u32_from_le_bytes(spec_u32_to_le_bytes(n)) == n,
{
    lemma_auto_spec_u32_to_from_le_bytes();
    assert(spec_u32_to_le_bytes(n).len() == 4);
}

} // verus!
