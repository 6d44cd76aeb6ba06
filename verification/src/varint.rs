//! The variable-length integer codec.
//!
//! A varint is one tag byte selecting the 1, 3, 5 or 9 byte form, followed
//! by the value in little-endian order.  Encoding always picks the shortest
//! form that fits, and decoding rejects every longer form, so each value has
//! exactly one accepted encoding.

use vstd::bytes::{
    lemma_auto_spec_u16_to_from_le_bytes, lemma_auto_spec_u32_to_from_le_bytes,
    lemma_auto_spec_u64_to_from_le_bytes, u16_from_le_bytes, u16_to_le_bytes, u32_from_le_bytes,
    u32_to_le_bytes, u64_from_le_bytes, u64_to_le_bytes,
};
use vstd::prelude::*;
use vstd::slice::slice_index_get;
use vstd::slice::slice_subrange;

use crate::errors::BitcoinError;
use crate::model::{spec_decode_varint, spec_encode_varint};

verus! {

/// Encodes `n` in its canonical variable-length form.
pub fn encode_varint(n: u64) -> (r: Vec<u8>)
    ensures
        r@ == spec_encode_varint(n),
{
    proof {
        lemma_auto_spec_u16_to_from_le_bytes();
        lemma_auto_spec_u32_to_from_le_bytes();
        lemma_auto_spec_u64_to_from_le_bytes();
    }
    if n < 0xFD {
        let mut out: Vec<u8> = Vec::new();
        out.push(n as u8);
        proof {
            assert(out@ =~= spec_encode_varint(n));
        }
        out
    } else if n <= 0xFFFF {
        let mut out: Vec<u8> = Vec::new();
        out.push(0xFD);
        let mut tail = u16_to_le_bytes(n as u16);
        out.append(&mut tail);
        proof {
            assert(out@ =~= spec_encode_varint(n));
        }
        out
    } else if n <= 0xFFFF_FFFF {
        let mut out: Vec<u8> = Vec::new();
        out.push(0xFE);
        let mut tail = u32_to_le_bytes(n as u32);
        out.append(&mut tail);
        proof {
            assert(out@ =~= spec_encode_varint(n));
        }
        out
    } else {
        let mut out: Vec<u8> = Vec::new();
        out.push(0xFF);
        let mut tail = u64_to_le_bytes(n);
        out.append(&mut tail);
        proof {
            assert(out@ =~= spec_encode_varint(n));
        }
        out
    }
}

/// Decodes the varint starting at `offset`: the value and the bytes
/// consumed, or `MalformedVarint` on a truncated or non-minimal encoding.
pub fn decode_varint(data: &[u8], offset: usize) -> (r: Result<(u64, usize), BitcoinError>)
    requires
        offset <= data@.len(),
    ensures
        ({
            let sr = spec_decode_varint(data@.skip(offset as int));
            match r {
                Ok(p) => {
                    &&& sr == Ok::<(u64, int), BitcoinError>((p.0, p.1 as int))
                    &&& offset + p.1 <= data@.len()
                },
                Err(e) => sr == Err::<(u64, int), BitcoinError>(e),
            }
        }),
{
    let ghost s = data@.skip(offset as int);
    if data.len() - offset < 1 {
        return Err(BitcoinError::MalformedVarint);
    }
    let tag = *slice_index_get(data, offset);
    proof {
        assert(s[0] == data@[offset as int]);
    }
    if tag < 0xFD {
        Ok((tag as u64, 1))
    } else if tag == 0xFD {
        if data.len() - offset < 3 {
            return Err(BitcoinError::MalformedVarint);
        }
        let sub = slice_subrange(data, offset + 1, offset + 3);
        let v = u16_from_le_bytes(sub);
        proof {
            assert(sub@ =~= s.subrange(1, 3));
        }
        if v < 0xFD {
            Err(BitcoinError::MalformedVarint)
        } else {
            Ok((v as u64, 3))
        }
    } else if tag == 0xFE {
        if data.len() - offset < 5 {
            return Err(BitcoinError::MalformedVarint);
        }
        let sub = slice_subrange(data, offset + 1, offset + 5);
        let v = u32_from_le_bytes(sub);
        proof {
            assert(sub@ =~= s.subrange(1, 5));
        }
        if v <= 0xFFFF {
            Err(BitcoinError::MalformedVarint)
        } else {
            Ok((v as u64, 5))
        }
    } else {
        if data.len() - offset < 9 {
            return Err(BitcoinError::MalformedVarint);
        }
        let sub = slice_subrange(data, offset + 1, offset + 9);
        let v = u64_from_le_bytes(sub);
        proof {
            assert(sub@ =~= s.subrange(1, 9));
        }
        if v <= 0xFFFF_FFFF {
            Err(BitcoinError::MalformedVarint)
        } else {
            Ok((v, 9))
        }
    }
}

/// The encoding of any value, followed by anything at all, decodes back to
/// that value, consuming exactly the encoding's bytes.
pub proof fn lemma_decode_encode_varint(n: u64, rest: Seq<u8>)
    ensures
        spec_decode_varint(spec_encode_varint(n) + rest) == Ok::<(u64, int), BitcoinError>(
            (n, spec_encode_varint(n).len() as int),
        ),
{
    lemma_auto_spec_u16_to_from_le_bytes();
    lemma_auto_spec_u32_to_from_le_bytes();
    lemma_auto_spec_u64_to_from_le_bytes();
    let e = spec_encode_varint(n);
    let s = e + rest;
    if n < 0xFD {
        assert(s[0] == n as u8);
    } else if n <= 0xFFFF {
        assert(s[0] == 0xFDu8);
        assert(s.subrange(1, 3) =~= vstd::bytes::spec_u16_to_le_bytes(n as u16));
    } else if n <= 0xFFFF_FFFF {
        assert(s[0] == 0xFEu8);
        assert(s.subrange(1, 5) =~= vstd::bytes::spec_u32_to_le_bytes(n as u32));
    } else {
        assert(s[0] == 0xFFu8);
        assert(s.subrange(1, 9) =~= vstd::bytes::spec_u64_to_le_bytes(n));
    }
}

/// Decoding accepts only the canonical form: whatever a successful decode
/// consumed is exactly the encoding of the value it returned.
pub proof fn lemma_varint_canonical(s: Seq<u8>, v: u64, c: int)
    requires
        spec_decode_varint(s) == Ok::<(u64, int), BitcoinError>((v, c)),
    ensures
        spec_encode_varint(v) == s.subrange(0, c),
        spec_encode_varint(v).len() == c,
{
    lemma_auto_spec_u16_to_from_le_bytes();
    lemma_auto_spec_u32_to_from_le_bytes();
    lemma_auto_spec_u64_to_from_le_bytes();
    if s[0] < 0xFD {
        assert(spec_encode_varint(v) =~= s.subrange(0, 1));
    } else if s[0] == 0xFD {
        let sub = s.subrange(1, 3);
        assert(vstd::bytes::spec_u16_to_le_bytes(vstd::bytes::spec_u16_from_le_bytes(sub)) == sub);
        assert(spec_encode_varint(v) =~= s.subrange(0, 3));
    } else if s[0] == 0xFE {
        let sub = s.subrange(1, 5);
        assert(vstd::bytes::spec_u32_to_le_bytes(vstd::bytes::spec_u32_from_le_bytes(sub)) == sub);
        assert(spec_encode_varint(v) =~= s.subrange(0, 5));
    } else {
        let sub = s.subrange(1, 9);
        assert(vstd::bytes::spec_u64_to_le_bytes(vstd::bytes::spec_u64_from_le_bytes(sub)) == sub);
        assert(spec_encode_varint(v) =~= s.subrange(0, 9));
    }
}

/// Cutting an encoding anywhere strictly before its end leaves bytes that
/// no longer decode.
pub proof fn lemma_varint_truncation(n: u64, j: int)
    requires
        0 <= j < spec_encode_varint(n).len(),
    ensures
        spec_decode_varint(spec_encode_varint(n).subrange(0, j)) == Err::<
            (u64, int),
            BitcoinError,
        >(BitcoinError::MalformedVarint),
{
    lemma_auto_spec_u16_to_from_le_bytes();
    lemma_auto_spec_u32_to_from_le_bytes();
    lemma_auto_spec_u64_to_from_le_bytes();
    let e = spec_encode_varint(n);
    let p = e.subrange(0, j);
    if j > 0 {
        assert(p[0] == e[0]);
    }
}

} // verus!
