//! The mathematical model of the wire format.
//!
//! Every executable type of the crate has a view into the ghost structures
//! below, and every contract of the codec is stated over the two families of
//! functions defined here: the encoders, which map a model value to the
//! canonical byte sequence, and the decoders, which map a byte sequence to a
//! model value and the number of bytes consumed, or to the exact error the
//! executable decoder returns.

use vstd::bytes::{
    spec_u16_from_le_bytes, spec_u16_to_le_bytes, spec_u32_from_le_bytes, spec_u32_to_le_bytes,
    spec_u64_from_le_bytes, spec_u64_to_le_bytes,
};
use vstd::prelude::*;

use crate::errors::BitcoinError;

verus! {

/// Model of an `OutPoint`: the referenced transaction id as a byte
/// sequence and the output index.
#[verifier::ext_equal]
pub ghost struct OutPointModel {
    pub txid: Seq<u8>,
    pub vout: u32,
}

/// Model of a `TxInput`.
#[verifier::ext_equal]
pub ghost struct TxInputModel {
    pub previous_output: OutPointModel,
    pub script_sig: Seq<u8>,
    pub sequence: u32,
}

/// Model of a `TxOutput`.
#[verifier::ext_equal]
pub ghost struct TxOutputModel {
    pub value: u64,
    pub script_pubkey: Seq<u8>,
}

/// Model of a `LegacyTransaction`.
#[verifier::ext_equal]
pub ghost struct TransactionModel {
    pub version: i32,
    pub inputs: Seq<TxInputModel>,
    pub outputs: Seq<TxOutputModel>,
    pub lock_time: u32,
}

/// The unsigned 32-bit value with the same little-endian byte
/// representation as the signed `x`.
pub open spec fn u32_of_i32(x: i32) -> u32 {
    if x >= 0 {
        x as u32
    } else {
        (x + 0x1_0000_0000) as u32
    }
}

/// The signed 32-bit value with the same little-endian byte representation
/// as the unsigned `x`.
pub open spec fn i32_of_u32(x: u32) -> i32 {
    if x < 0x8000_0000 {
        x as i32
    } else {
        (x - 0x1_0000_0000) as i32
    }
}

pub proof fn lemma_i32_u32_inverse(x: i32)
    ensures
        i32_of_u32(u32_of_i32(x)) == x,
{
}

pub proof fn lemma_u32_i32_inverse(x: u32)
    ensures
        u32_of_i32(i32_of_u32(x)) == x,
{
}

/// Structural bounds that every in-memory value satisfies by construction:
/// a 32-byte transaction id and a script short enough for its length to be
/// a 64-bit number.
pub open spec fn wf_outpoint(p: OutPointModel) -> bool {
    p.txid.len() == 32
}

pub open spec fn wf_input(i: TxInputModel) -> bool {
    &&& wf_outpoint(i.previous_output)
    &&& i.script_sig.len() <= u64::MAX
}

pub open spec fn wf_output(o: TxOutputModel) -> bool {
    o.script_pubkey.len() <= u64::MAX
}

pub open spec fn wf_transaction(t: TransactionModel) -> bool {
    &&& t.inputs.len() <= u64::MAX
    &&& t.outputs.len() <= u64::MAX
    &&& forall|k: int| 0 <= k < t.inputs.len() ==> wf_input(#[trigger] t.inputs[k])
    &&& forall|k: int| 0 <= k < t.outputs.len() ==> wf_output(#[trigger] t.outputs[k])
}

/// The canonical variable-length encoding of `n`: one tag byte selects the
/// 1, 3, 5 or 9 byte form, and the shortest form that fits is the only
/// valid one.
pub open spec fn spec_encode_varint(n: u64) -> Seq<u8> {
    if n < 0xFD {
        seq![n as u8]
    } else if n <= 0xFFFF {
        seq![0xFDu8] + spec_u16_to_le_bytes(n as u16)
    } else if n <= 0xFFFF_FFFF {
        seq![0xFEu8] + spec_u32_to_le_bytes(n as u32)
    } else {
        seq![0xFFu8] + spec_u64_to_le_bytes(n)
    }
}

/// Decodes a varint from the front of `s`: the value and the bytes
/// consumed, or `MalformedVarint` if `s` is truncated mid-encoding or uses
/// a longer form than the value needs.
pub open spec fn spec_decode_varint(s: Seq<u8>) -> Result<(u64, int), BitcoinError> {
    if s.len() < 1 {
        Err(BitcoinError::MalformedVarint)
    } else if s[0] < 0xFD {
        Ok((s[0] as u64, 1))
    } else if s[0] == 0xFD {
        if s.len() < 3 {
            Err(BitcoinError::MalformedVarint)
        } else {
            let v = spec_u16_from_le_bytes(s.subrange(1, 3)) as u64;
            if v < 0xFD {
                Err(BitcoinError::MalformedVarint)
            } else {
                Ok((v, 3))
            }
        }
    } else if s[0] == 0xFE {
        if s.len() < 5 {
            Err(BitcoinError::MalformedVarint)
        } else {
            let v = spec_u32_from_le_bytes(s.subrange(1, 5)) as u64;
            if v <= 0xFFFF {
                Err(BitcoinError::MalformedVarint)
            } else {
                Ok((v, 5))
            }
        }
    } else {
        if s.len() < 9 {
            Err(BitcoinError::MalformedVarint)
        } else {
            let v = spec_u64_from_le_bytes(s.subrange(1, 9));
            if v <= 0xFFFF_FFFF {
                Err(BitcoinError::MalformedVarint)
            } else {
                Ok((v, 9))
            }
        }
    }
}

/// Wire form of an out-point: the 32 txid bytes verbatim, then the output
/// index as 4 little-endian bytes.
pub open spec fn spec_encode_outpoint(p: OutPointModel) -> Seq<u8> {
    p.txid + spec_u32_to_le_bytes(p.vout)
}

/// Wire form of an input: out-point, varint script length, script bytes,
/// then the sequence number as 4 little-endian bytes.
pub open spec fn spec_encode_input(i: TxInputModel) -> Seq<u8> {
    spec_encode_outpoint(i.previous_output) + spec_encode_varint(i.script_sig.len() as u64)
        + i.script_sig + spec_u32_to_le_bytes(i.sequence)
}

/// Wire form of an output: the value as 8 little-endian bytes, varint
/// script length, then the script bytes.
pub open spec fn spec_encode_output(o: TxOutputModel) -> Seq<u8> {
    spec_u64_to_le_bytes(o.value) + spec_encode_varint(o.script_pubkey.len() as u64)
        + o.script_pubkey
}

pub open spec fn spec_encode_inputs(l: Seq<TxInputModel>) -> Seq<u8>
    decreases l.len(),
{
    if l.len() == 0 {
        Seq::<u8>::empty()
    } else {
        spec_encode_input(l[0]) + spec_encode_inputs(l.drop_first())
    }
}

pub open spec fn spec_encode_outputs(l: Seq<TxOutputModel>) -> Seq<u8>
    decreases l.len(),
{
    if l.len() == 0 {
        Seq::<u8>::empty()
    } else {
        spec_encode_output(l[0]) + spec_encode_outputs(l.drop_first())
    }
}

/// The canonical serialized form of a transaction: version, varint input
/// count, the inputs in order, varint output count, the outputs in order,
/// lock time.
pub open spec fn spec_encode_transaction(t: TransactionModel) -> Seq<u8> {
    spec_u32_to_le_bytes(u32_of_i32(t.version)) + spec_encode_varint(t.inputs.len() as u64)
        + spec_encode_inputs(t.inputs) + spec_encode_varint(t.outputs.len() as u64)
        + spec_encode_outputs(t.outputs) + spec_u32_to_le_bytes(t.lock_time)
}

/// Appending one input to a sequence appends its encoding to the
/// sequence's encoding.
pub proof fn lemma_encode_inputs_push(l: Seq<TxInputModel>, x: TxInputModel)
    ensures
        spec_encode_inputs(l.push(x)) == spec_encode_inputs(l) + spec_encode_input(x),
    decreases l.len(),
{
    if l.len() == 0 {
        assert(l.push(x)[0] == x);
        assert(l.push(x).drop_first() =~= Seq::<TxInputModel>::empty());
        assert(spec_encode_inputs(Seq::<TxInputModel>::empty()) =~= Seq::<u8>::empty());
        assert(spec_encode_input(x) + Seq::<u8>::empty() =~= spec_encode_input(x));
        assert(spec_encode_inputs(l) + spec_encode_input(x) =~= spec_encode_input(x));
        assert(spec_encode_inputs(l.push(x)) =~= spec_encode_inputs(l) + spec_encode_input(x));
    } else {
        assert(l.push(x)[0] == l[0]);
        assert(l.push(x).drop_first() =~= l.drop_first().push(x));
        lemma_encode_inputs_push(l.drop_first(), x);
        assert(spec_encode_input(l[0]) + (spec_encode_inputs(l.drop_first()) + spec_encode_input(
            x,
        )) =~= (spec_encode_input(l[0]) + spec_encode_inputs(l.drop_first())) + spec_encode_input(
            x,
        ));
    }
}

/// Appending one output to a sequence appends its encoding to the
/// sequence's encoding.
pub proof fn lemma_encode_outputs_push(l: Seq<TxOutputModel>, x: TxOutputModel)
    ensures
        spec_encode_outputs(l.push(x)) == spec_encode_outputs(l) + spec_encode_output(x),
    decreases l.len(),
{
    if l.len() == 0 {
        assert(l.push(x)[0] == x);
        assert(l.push(x).drop_first() =~= Seq::<TxOutputModel>::empty());
        assert(spec_encode_outputs(Seq::<TxOutputModel>::empty()) =~= Seq::<u8>::empty());
        assert(spec_encode_output(x) + Seq::<u8>::empty() =~= spec_encode_output(x));
        assert(spec_encode_outputs(l) + spec_encode_output(x) =~= spec_encode_output(x));
        assert(spec_encode_outputs(l.push(x)) =~= spec_encode_outputs(l) + spec_encode_output(x));
    } else {
        assert(l.push(x)[0] == l[0]);
        assert(l.push(x).drop_first() =~= l.drop_first().push(x));
        lemma_encode_outputs_push(l.drop_first(), x);
        assert(spec_encode_output(l[0]) + (spec_encode_outputs(l.drop_first())
            + spec_encode_output(x)) =~= (spec_encode_output(l[0]) + spec_encode_outputs(
            l.drop_first(),
        )) + spec_encode_output(x));
        assert(spec_encode_outputs(l.push(x)) =~= spec_encode_outputs(l) + spec_encode_output(x));
    }
}

/// Decodes an out-point from the front of `s`.
pub open spec fn spec_decode_outpoint(s: Seq<u8>) -> Result<(OutPointModel, int), BitcoinError> {
    if s.len() < 36 {
        Err(BitcoinError::InvalidTransaction)
    } else {
        Ok(
            (
                OutPointModel {
                    txid: s.subrange(0, 32),
                    vout: spec_u32_from_le_bytes(s.subrange(32, 36)),
                },
                36,
            ),
        )
    }
}

/// Decodes an input from the front of `s`: out-point, script length,
/// exactly that many script bytes, then the sequence number.  A declared
/// script length larger than the bytes remaining is `InvalidScript`.
pub open spec fn spec_decode_input(s: Seq<u8>) -> Result<(TxInputModel, int), BitcoinError> {
    match spec_decode_outpoint(s) {
        Err(e) => Err(e),
        Ok((prev, c0)) => match spec_decode_varint(s.skip(c0)) {
            Err(e) => Err(e),
            Ok((len, c1)) => {
                if s.len() - c0 - c1 < len {
                    Err(BitcoinError::InvalidScript)
                } else if s.len() - c0 - c1 - len < 4 {
                    Err(BitcoinError::InvalidTransaction)
                } else {
                    Ok(
                        (
                            TxInputModel {
                                previous_output: prev,
                                script_sig: s.subrange(c0 + c1, c0 + c1 + len),
                                sequence: spec_u32_from_le_bytes(
                                    s.subrange(c0 + c1 + len, c0 + c1 + len + 4),
                                ),
                            },
                            c0 + c1 + len + 4,
                        ),
                    )
                }
            },
        },
    }
}

/// Decodes an output from the front of `s`.
pub open spec fn spec_decode_output(s: Seq<u8>) -> Result<(TxOutputModel, int), BitcoinError> {
    if s.len() < 8 {
        Err(BitcoinError::InvalidTransaction)
    } else {
        match spec_decode_varint(s.skip(8)) {
            Err(e) => Err(e),
            Ok((len, c1)) => {
                if s.len() - 8 - c1 < len {
                    Err(BitcoinError::InvalidScript)
                } else {
                    Ok(
                        (
                            TxOutputModel {
                                value: spec_u64_from_le_bytes(s.subrange(0, 8)),
                                script_pubkey: s.subrange(8 + c1, 8 + c1 + len),
                            },
                            8 + c1 + len,
                        ),
                    )
                }
            },
        }
    }
}

/// Decodes exactly `n` inputs from the front of `s`.
pub open spec fn spec_decode_inputs(s: Seq<u8>, n: nat) -> Result<
    (Seq<TxInputModel>, int),
    BitcoinError,
>
    decreases n,
{
    if n == 0 {
        Ok((Seq::<TxInputModel>::empty(), 0))
    } else {
        match spec_decode_input(s) {
            Err(e) => Err(e),
            Ok((first, c0)) => match spec_decode_inputs(s.skip(c0), (n - 1) as nat) {
                Err(e) => Err(e),
                Ok((rest, c1)) => Ok((seq![first] + rest, c0 + c1)),
            },
        }
    }
}

/// Decodes exactly `n` outputs from the front of `s`.
pub open spec fn spec_decode_outputs(s: Seq<u8>, n: nat) -> Result<
    (Seq<TxOutputModel>, int),
    BitcoinError,
>
    decreases n,
{
    if n == 0 {
        Ok((Seq::<TxOutputModel>::empty(), 0))
    } else {
        match spec_decode_output(s) {
            Err(e) => Err(e),
            Ok((first, c0)) => match spec_decode_outputs(s.skip(c0), (n - 1) as nat) {
                Err(e) => Err(e),
                Ok((rest, c1)) => Ok((seq![first] + rest, c0 + c1)),
            },
        }
    }
}

/// Decodes all fields of a transaction from the front of `s`, without the
/// trailing-byte check: the model value and the bytes consumed.
pub open spec fn spec_decode_transaction_fields(s: Seq<u8>) -> Result<
    (TransactionModel, int),
    BitcoinError,
> {
    if s.len() < 4 {
        Err(BitcoinError::InvalidTransaction)
    } else {
        let version = i32_of_u32(spec_u32_from_le_bytes(s.subrange(0, 4)));
        match spec_decode_varint(s.skip(4)) {
            Err(e) => Err(e),
            Ok((n_in, c1)) => match spec_decode_inputs(s.skip(4 + c1), n_in as nat) {
                Err(e) => Err(e),
                Ok((inputs, c2)) => match spec_decode_varint(s.skip(4 + c1 + c2)) {
                    Err(e) => Err(e),
                    Ok((n_out, c3)) => match spec_decode_outputs(
                        s.skip(4 + c1 + c2 + c3),
                        n_out as nat,
                    ) {
                        Err(e) => Err(e),
                        Ok((outputs, c4)) => {
                            let used = 4 + c1 + c2 + c3 + c4;
                            if s.len() - used < 4 {
                                Err(BitcoinError::InvalidTransaction)
                            } else {
                                Ok(
                                    (
                                        TransactionModel {
                                            version,
                                            inputs,
                                            outputs,
                                            lock_time: spec_u32_from_le_bytes(
                                                s.subrange(used, used + 4),
                                            ),
                                        },
                                        used + 4,
                                    ),
                                )
                            }
                        },
                    },
                },
            },
        }
    }
}

/// Decodes a whole buffer as one transaction.  The buffer must be consumed
/// exactly: trailing bytes after the lock time are `InvalidTransaction`.
pub open spec fn spec_decode_transaction(s: Seq<u8>) -> Result<TransactionModel, BitcoinError> {
    match spec_decode_transaction_fields(s) {
        Err(e) => Err(e),
        Ok((t, used)) => {
            if used == s.len() {
                Ok(t)
            } else {
                Err(BitcoinError::InvalidTransaction)
            }
        },
    }
}

} // verus!
