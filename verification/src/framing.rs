//! Length-prefixed framing for the stream leg of the relay.
//!
//! The tunnel carries each DNS message as a two-byte big-endian length
//! prefix followed by exactly that many payload bytes, symmetrically for
//! request and response. A payload longer than the prefix can describe
//! cannot be framed.

use vstd::prelude::*;

verus! {

/// The largest payload length that a two-byte big-endian prefix can carry.
pub const MAX_FRAME_LEN: usize = 65535;

/// The two bytes of the big-endian prefix that declares a payload length.
pub open spec fn spec_len_bytes(n: int) -> Seq<u8> {
    seq![(n / 256) as u8, (n % 256) as u8]
}

/// The length that a two-byte big-endian prefix declares.
pub open spec fn spec_prefix_len(hi: u8, lo: u8) -> int {
    hi * 256 + lo
}

/// A framed message: the prefix for the payload's length, then the payload.
pub open spec fn spec_frame(payload: Seq<u8>) -> Seq<u8> {
    spec_len_bytes(payload.len() as int) + payload
}

/// The payload of a complete framed message, or `None` where the buffer is
/// too short for a prefix or its length differs from the declared one.
pub open spec fn spec_unframe(bytes: Seq<u8>) -> Option<Seq<u8>> {
    if bytes.len() >= 2 && bytes.len() - 2 == spec_prefix_len(bytes[0], bytes[1]) {
        Some(bytes.subrange(2, bytes.len() as int))
    } else {
        None
    }
}

/// The length a received two-byte prefix declares; the reader must then take
/// exactly this many payload bytes from the stream.
pub fn prefix_len(hi: u8, lo: u8) -> (n: usize)
    ensures
        n == spec_prefix_len(hi, lo),
        n <= MAX_FRAME_LEN,
{
    (hi as usize) * 256 + (lo as usize)
}

/// Frames a payload for the tunnel: succeeds exactly on payloads the
/// two-byte prefix can describe.
pub fn encode_frame(payload: &Vec<u8>) -> (r: Option<Vec<u8>>)
    ensures
        payload@.len() <= MAX_FRAME_LEN ==> (r matches Some(f) && f@ == spec_frame(payload@)),
        payload@.len() > MAX_FRAME_LEN ==> r is None,
{
    let n = payload.len();
    if n > MAX_FRAME_LEN {
        return None;
    }
    let mut out: Vec<u8> = Vec::new();
    out.push((n / 256) as u8);
    out.push((n % 256) as u8);
    let mut i: usize = 0;
    while i < payload.len()
        invariant
            i <= payload@.len(),
            out@ == spec_len_bytes(payload@.len() as int) + payload@.subrange(0, i as int),
        decreases payload@.len() - i,
    {
        out.push(payload[i]);
        i = i + 1;
        proof {
            assert(payload@.subrange(0, i as int)
                == payload@.subrange(0, i - 1).push(payload@[i - 1]));
        }
    }
    proof {
        assert(payload@.subrange(0, payload@.len() as int) == payload@);
    }
    Some(out)
}

/// Recovers the payload of a complete framed message, exactly where the
/// declared length matches what follows the prefix.
pub fn decode_frame(bytes: &Vec<u8>) -> (r: Option<Vec<u8>>)
    ensures
        match r {
            Some(p) => spec_unframe(bytes@) == Some(p@),
            None => spec_unframe(bytes@) is None,
        },
{
    if bytes.len() < 2 {
        return None;
    }
    let declared = prefix_len(bytes[0], bytes[1]);
    if bytes.len() - 2 != declared {
        return None;
    }
    let mut payload: Vec<u8> = Vec::new();
    let mut i: usize = 2;
    while i < bytes.len()
        invariant
            2 <= i <= bytes@.len(),
            payload@ == bytes@.subrange(2, i as int),
        decreases bytes@.len() - i,
    {
        payload.push(bytes[i]);
        i = i + 1;
        proof {
            assert(bytes@.subrange(2, i as int)
                == bytes@.subrange(2, i - 1).push(bytes@[i - 1]));
        }
    }
    Some(payload)
}

/// Law: framing then unframing recovers exactly the original payload, for
/// every payload the prefix can describe.
pub proof fn lemma_frame_round_trip(payload: Seq<u8>)
    requires
        payload.len() <= MAX_FRAME_LEN,
    ensures
        spec_unframe(spec_frame(payload)) == Some(payload),
{
    let n = payload.len() as int;
    let framed = spec_frame(payload);
    assert(0 <= n / 256 < 256 && 0 <= n % 256 < 256) by (nonlinear_arith)
        requires 0 <= n <= 65535;
    vstd::arithmetic::div_mod::lemma_fundamental_div_mod(n, 256);
    assert(spec_prefix_len(framed[0], framed[1]) == n);
    assert(framed.subrange(2, framed.len() as int) == payload);
}

} // verus!
