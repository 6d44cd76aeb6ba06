//! The wire codec: fixed-width fields, the per-entity codecs, and the
//! transaction codec itself.
//!
//! Every encoder's contract says that the produced bytes are exactly the
//! model encoding of the value, and every decoder's contract says that the
//! result — value and consumed length on success, the typed error on
//! failure — is exactly what the model decoder yields on the same bytes.

use vstd::bytes::{u32_from_le_bytes, u32_to_le_bytes, u64_from_le_bytes, u64_to_le_bytes};
use vstd::prelude::*;
use vstd::slice::slice_index_get;
use vstd::slice::slice_subrange;
use vstd::slice::slice_to_vec;

use crate::errors::BitcoinError;
use crate::model::{
    i32_of_u32, lemma_encode_inputs_push, lemma_encode_outputs_push, spec_decode_input,
    spec_decode_inputs, spec_decode_outpoint, spec_decode_output, spec_decode_outputs,
    spec_decode_transaction, spec_encode_input, spec_encode_inputs, spec_encode_outpoint,
    spec_encode_output, spec_encode_outputs, spec_encode_transaction, u32_of_i32, OutPointModel,
    TransactionModel, TxInputModel, TxOutputModel,
};
use crate::types::{LegacyTransaction, OutPoint, TxInput, TxOutput};
use crate::varint::{decode_varint, encode_varint};

verus! {

/// The unsigned 32-bit value with the bit pattern of `x`.
fn u32_from_i32(x: i32) -> (r: u32)
    ensures
        r == u32_of_i32(x),
{
    if x >= 0 {
        x as u32
    } else {
        ((x as i64) + 0x1_0000_0000i64) as u32
    }
}

/// The signed 32-bit value with the bit pattern of `x`.
fn i32_from_u32(x: u32) -> (r: i32)
    ensures
        r == i32_of_u32(x),
{
    if x < 0x8000_0000 {
        x as i32
    } else {
        ((x as i64) - 0x1_0000_0000i64) as i32
    }
}

/// Reads a little-endian unsigned 32-bit field, or fails if fewer than 4
/// bytes remain past `offset`.
pub fn read_u32_le(data: &[u8], offset: usize) -> (r: Result<u32, BitcoinError>)
    ensures
        offset + 4 <= data@.len() ==> r == Ok::<u32, BitcoinError>(
            vstd::bytes::spec_u32_from_le_bytes(data@.subrange(offset as int, offset + 4)),
        ),
        offset + 4 > data@.len() ==> r == Err::<u32, BitcoinError>(
            BitcoinError::UnexpectedEndOfBuffer,
        ),
{
    if data.len() < 4 || offset > data.len() - 4 {
        return Err(BitcoinError::UnexpectedEndOfBuffer);
    }
    let sub = slice_subrange(data, offset, offset + 4);
    Ok(u32_from_le_bytes(sub))
}

/// Reads a little-endian signed 32-bit field, or fails if fewer than 4
/// bytes remain past `offset`.
pub fn read_i32_le(data: &[u8], offset: usize) -> (r: Result<i32, BitcoinError>)
    ensures
        offset + 4 <= data@.len() ==> r == Ok::<i32, BitcoinError>(
            i32_of_u32(
                vstd::bytes::spec_u32_from_le_bytes(data@.subrange(offset as int, offset + 4)),
            ),
        ),
        offset + 4 > data@.len() ==> r == Err::<i32, BitcoinError>(
            BitcoinError::UnexpectedEndOfBuffer,
        ),
{
    match read_u32_le(data, offset) {
        Ok(v) => Ok(i32_from_u32(v)),
        Err(e) => Err(e),
    }
}

/// Reads a little-endian unsigned 64-bit field, or fails if fewer than 8
/// bytes remain past `offset`.
pub fn read_u64_le(data: &[u8], offset: usize) -> (r: Result<u64, BitcoinError>)
    ensures
        offset + 8 <= data@.len() ==> r == Ok::<u64, BitcoinError>(
            vstd::bytes::spec_u64_from_le_bytes(data@.subrange(offset as int, offset + 8)),
        ),
        offset + 8 > data@.len() ==> r == Err::<u64, BitcoinError>(
            BitcoinError::UnexpectedEndOfBuffer,
        ),
{
    if data.len() < 8 || offset > data.len() - 8 {
        return Err(BitcoinError::UnexpectedEndOfBuffer);
    }
    let sub = slice_subrange(data, offset, offset + 8);
    Ok(u64_from_le_bytes(sub))
}

/// Copies a 32-byte field verbatim, or fails if fewer than 32 bytes remain
/// past `offset`.
pub fn read_bytes32(data: &[u8], offset: usize) -> (r: Result<[u8; 32], BitcoinError>)
    ensures
        offset + 32 <= data@.len() ==> ({
            &&& r is Ok
            &&& r->Ok_0@ == data@.subrange(offset as int, offset + 32)
        }),
        offset + 32 > data@.len() ==> r == Err::<[u8; 32], BitcoinError>(
            BitcoinError::UnexpectedEndOfBuffer,
        ),
{
    if data.len() < 32 || offset > data.len() - 32 {
        return Err(BitcoinError::UnexpectedEndOfBuffer);
    }
    let n = data.len();
    let mut out: [u8; 32] = [0u8; 32];
    let mut i: usize = 0;
    while i < 32
        invariant
            n == data@.len(),
            offset + 32 <= n,
            i <= 32,
            forall|k: int| 0 <= k < i ==> out@[k] == data@[offset + k],
        decreases 32 - i,
    {
        out[i] = *slice_index_get(data, offset + i);
        i += 1;
    }
    proof {
        assert(out@ =~= data@.subrange(offset as int, offset + 32));
    }
    Ok(out)
}

/// Appends the 4 little-endian bytes of `x`.
pub fn write_u32_le(out: &mut Vec<u8>, x: u32)
    ensures
        final(out)@ == old(out)@ + vstd::bytes::spec_u32_to_le_bytes(x),
{
    let mut tail = u32_to_le_bytes(x);
    out.append(&mut tail);
}

/// Appends the 4 little-endian bytes of `x`.
pub fn write_i32_le(out: &mut Vec<u8>, x: i32)
    ensures
        final(out)@ == old(out)@ + vstd::bytes::spec_u32_to_le_bytes(u32_of_i32(x)),
{
    write_u32_le(out, u32_from_i32(x));
}

/// Appends the 8 little-endian bytes of `x`.
pub fn write_u64_le(out: &mut Vec<u8>, x: u64)
    ensures
        final(out)@ == old(out)@ + vstd::bytes::spec_u64_to_le_bytes(x),
{
    let mut tail = u64_to_le_bytes(x);
    out.append(&mut tail);
}

/// Appends all 32 bytes verbatim.
pub fn write_bytes32(out: &mut Vec<u8>, bytes: &[u8; 32])
    ensures
        final(out)@ == old(out)@ + bytes@,
{
    out.extend_from_slice(bytes.as_slice());
}

/// Serialization into the canonical wire form.  Each implementing type
/// says, as a spec function, which byte sequence it serializes to, and
/// `serialize` produces exactly that sequence.
pub trait BitcoinSerialize {
    spec fn spec_serialized(&self) -> Seq<u8>;

    fn serialize(&self) -> (r: Vec<u8>)
        ensures
            r@ == self.spec_serialized(),
    ;
}

impl BitcoinSerialize for OutPoint {
    open spec fn spec_serialized(&self) -> Seq<u8> {
        spec_encode_outpoint(self@)
    }

    fn serialize(&self) -> (r: Vec<u8>)
        ensures
            r@ == self.spec_serialized(),
    {
        let mut out: Vec<u8> = Vec::new();
        write_bytes32(&mut out, &self.txid);
        write_u32_le(&mut out, self.vout);
        proof {
            assert(out@ =~= spec_encode_outpoint(self@));
        }
        out
    }
}

impl BitcoinSerialize for TxInput {
    open spec fn spec_serialized(&self) -> Seq<u8> {
        spec_encode_input(self@)
    }

    fn serialize(&self) -> (r: Vec<u8>)
        ensures
            r@ == self.spec_serialized(),
    {
        let mut out = self.previous_output.serialize();
        let mut len_bytes = encode_varint(self.script_sig.len() as u64);
        out.append(&mut len_bytes);
        out.extend_from_slice(self.script_sig.as_slice());
        write_u32_le(&mut out, self.sequence);
        proof {
            assert(out@ =~= spec_encode_input(self@));
        }
        out
    }
}

impl BitcoinSerialize for TxOutput {
    open spec fn spec_serialized(&self) -> Seq<u8> {
        spec_encode_output(self@)
    }

    fn serialize(&self) -> (r: Vec<u8>)
        ensures
            r@ == self.spec_serialized(),
    {
        let mut out: Vec<u8> = Vec::new();
        write_u64_le(&mut out, self.value);
        let mut len_bytes = encode_varint(self.script_pubkey.len() as u64);
        out.append(&mut len_bytes);
        out.extend_from_slice(self.script_pubkey.as_slice());
        proof {
            assert(out@ =~= spec_encode_output(self@));
        }
        out
    }
}

impl BitcoinSerialize for LegacyTransaction {
    open spec fn spec_serialized(&self) -> Seq<u8> {
        spec_encode_transaction(self@)
    }

    /// Version, varint input count, each input, varint output count, each
    /// output, lock time.
    fn serialize(&self) -> (r: Vec<u8>)
        ensures
            r@ == self.spec_serialized(),
    {
        let ghost in_views = self@.inputs;
        let ghost out_views = self@.outputs;
        let mut out: Vec<u8> = Vec::new();
        write_i32_le(&mut out, self.version);
        let mut n_in = encode_varint(self.inputs.len() as u64);
        out.append(&mut n_in);
        let ghost head = out@;
        proof {
            assert(in_views.subrange(0, 0) =~= Seq::<TxInputModel>::empty());
            assert(head + Seq::<u8>::empty() =~= head);
        }
        let mut i: usize = 0;
        while i < self.inputs.len()
            invariant
                i <= self.inputs.len(),
                in_views == self@.inputs,
                in_views.len() == self.inputs@.len(),
                out@ == head + spec_encode_inputs(in_views.subrange(0, i as int)),
            decreases self.inputs@.len() - i,
        {
            let mut next = self.inputs[i].serialize();
            proof {
                lemma_encode_inputs_push(in_views.subrange(0, i as int), in_views[i as int]);
                assert(in_views.subrange(0, i as int).push(in_views[i as int]) =~= in_views
                    .subrange(0, i + 1));
                assert((head + spec_encode_inputs(in_views.subrange(0, i as int))) + next@ =~= head
                    + (spec_encode_inputs(in_views.subrange(0, i as int)) + next@));
            }
            out.append(&mut next);
            i += 1;
        }
        proof {
            assert(in_views.subrange(0, in_views.len() as int) =~= in_views);
        }
        let mut n_out = encode_varint(self.outputs.len() as u64);
        out.append(&mut n_out);
        let ghost head2 = out@;
        proof {
            assert(out_views.subrange(0, 0) =~= Seq::<TxOutputModel>::empty());
            assert(head2 + Seq::<u8>::empty() =~= head2);
        }
        let mut j: usize = 0;
        while j < self.outputs.len()
            invariant
                j <= self.outputs.len(),
                out_views == self@.outputs,
                out_views.len() == self.outputs@.len(),
                out@ == head2 + spec_encode_outputs(out_views.subrange(0, j as int)),
            decreases self.outputs@.len() - j,
        {
            let mut next = self.outputs[j].serialize();
            proof {
                lemma_encode_outputs_push(out_views.subrange(0, j as int), out_views[j as int]);
                assert(out_views.subrange(0, j as int).push(out_views[j as int]) =~= out_views
                    .subrange(0, j + 1));
                assert((head2 + spec_encode_outputs(out_views.subrange(0, j as int))) + next@
                    =~= head2 + (spec_encode_outputs(out_views.subrange(0, j as int)) + next@));
            }
            out.append(&mut next);
            j += 1;
        }
        proof {
            assert(out_views.subrange(0, out_views.len() as int) =~= out_views);
        }
        write_u32_le(&mut out, self.lock_time);
        proof {
            assert(out@ =~= spec_encode_transaction(self@));
        }
        out
    }
}

/// Decodes an out-point at `offset`: the value and the bytes consumed, or
/// `InvalidTransaction` if fewer than 36 bytes remain.
pub fn decode_outpoint(data: &[u8], offset: usize) -> (r: Result<(OutPoint, usize), BitcoinError>)
    requires
        offset <= data@.len(),
    ensures
        ({
            let sr = spec_decode_outpoint(data@.skip(offset as int));
            match r {
                Ok(p) => {
                    &&& sr == Ok::<(OutPointModel, int), BitcoinError>((p.0@, p.1 as int))
                    &&& offset + p.1 <= data@.len()
                },
                Err(e) => sr == Err::<(OutPointModel, int), BitcoinError>(e),
            }
        }),
{
    let ghost s = data@.skip(offset as int);
    if data.len() - offset < 36 {
        return Err(BitcoinError::InvalidTransaction);
    }
    let txid = match read_bytes32(data, offset) {
        Ok(t) => t,
        Err(_) => {
            return Err(BitcoinError::InvalidTransaction);
        },
    };
    let sub = slice_subrange(data, offset + 32, offset + 36);
    let vout = u32_from_le_bytes(sub);
    let op = OutPoint { txid, vout };
    proof {
        assert(txid@ =~= s.subrange(0, 32));
        assert(sub@ =~= s.subrange(32, 36));
        assert(op@ =~= spec_decode_outpoint(s)->Ok_0.0);
    }
    Ok((op, 36))
}

/// Decodes an input at `offset`: out-point, script length, exactly that
/// many script bytes, then the sequence number.
pub fn decode_input(data: &[u8], offset: usize) -> (r: Result<(TxInput, usize), BitcoinError>)
    requires
        offset <= data@.len(),
    ensures
        ({
            let sr = spec_decode_input(data@.skip(offset as int));
            match r {
                Ok(p) => {
                    &&& sr == Ok::<(TxInputModel, int), BitcoinError>((p.0@, p.1 as int))
                    &&& offset + p.1 <= data@.len()
                },
                Err(e) => sr == Err::<(TxInputModel, int), BitcoinError>(e),
            }
        }),
{
    let ghost s = data@.skip(offset as int);
    let n = data.len();
    let (prev, c0) = match decode_outpoint(data, offset) {
        Ok(p) => p,
        Err(e) => {
            return Err(e);
        },
    };
    proof {
        assert(data@.skip(offset as int).skip(c0 as int) =~= data@.skip(offset + c0));
    }
    let (len, c1) = match decode_varint(data, offset + c0) {
        Ok(p) => p,
        Err(e) => {
            return Err(e);
        },
    };
    let pos = offset + c0 + c1;
    let rem = n - pos;
    if (rem as u64) < len {
        return Err(BitcoinError::InvalidScript);
    }
    let slen = len as usize;
    if n - (pos + slen) < 4 {
        return Err(BitcoinError::InvalidTransaction);
    }
    let script_slice = slice_subrange(data, pos, pos + slen);
    let script_sig = slice_to_vec(script_slice);
    let sub = slice_subrange(data, pos + slen, pos + slen + 4);
    let sequence = u32_from_le_bytes(sub);
    let input = TxInput { previous_output: prev, script_sig, sequence };
    let consumed = c0 + c1 + slen + 4;
    proof {
        let c0i = c0 as int;
        let c1i = c1 as int;
        let li = len as int;
        assert(script_sig@ =~= s.subrange(c0i + c1i, c0i + c1i + li));
        assert(sub@ =~= s.subrange(c0i + c1i + li, c0i + c1i + li + 4));
        assert(input@ =~= spec_decode_input(s)->Ok_0.0);
    }
    Ok((input, consumed))
}

/// Decodes an output at `offset`: value, script length, exactly that many
/// script bytes.
pub fn decode_output(data: &[u8], offset: usize) -> (r: Result<(TxOutput, usize), BitcoinError>)
    requires
        offset <= data@.len(),
    ensures
        ({
            let sr = spec_decode_output(data@.skip(offset as int));
            match r {
                Ok(p) => {
                    &&& sr == Ok::<(TxOutputModel, int), BitcoinError>((p.0@, p.1 as int))
                    &&& offset + p.1 <= data@.len()
                },
                Err(e) => sr == Err::<(TxOutputModel, int), BitcoinError>(e),
            }
        }),
{
    let ghost s = data@.skip(offset as int);
    let n = data.len();
    if n - offset < 8 {
        return Err(BitcoinError::InvalidTransaction);
    }
    let vsub = slice_subrange(data, offset, offset + 8);
    let value = u64_from_le_bytes(vsub);
    proof {
        assert(vsub@ =~= s.subrange(0, 8));
        assert(data@.skip(offset as int).skip(8) =~= data@.skip(offset + 8));
    }
    let (len, c1) = match decode_varint(data, offset + 8) {
        Ok(p) => p,
        Err(e) => {
            return Err(e);
        },
    };
    let pos = offset + 8 + c1;
    let rem = n - pos;
    if (rem as u64) < len {
        return Err(BitcoinError::InvalidScript);
    }
    let slen = len as usize;
    let script_slice = slice_subrange(data, pos, pos + slen);
    let script_pubkey = slice_to_vec(script_slice);
    let output = TxOutput { value, script_pubkey };
    let consumed = 8 + c1 + slen;
    proof {
        let c1i = c1 as int;
        let li = len as int;
        assert(script_pubkey@ =~= s.subrange(8 + c1i, 8 + c1i + li));
        assert(output@ =~= spec_decode_output(s)->Ok_0.0);
    }
    Ok((output, consumed))
}

impl LegacyTransaction {
    /// Decodes one whole buffer as one transaction: version, varint input
    /// count, exactly that many inputs, varint output count, exactly that
    /// many outputs, lock time, and nothing after it.  Every malformed
    /// buffer is rejected with the error the model decoder assigns to it.
    #[verifier::loop_isolation(false)]
    pub fn decode(data: &[u8]) -> (r: Result<LegacyTransaction, BitcoinError>)
        ensures
            ({
                let sr = spec_decode_transaction(data@);
                match r {
                    Ok(t) => sr == Ok::<TransactionModel, BitcoinError>(t@),
                    Err(e) => sr == Err::<TransactionModel, BitcoinError>(e),
                }
            }),
    {
        let n = data.len();
        if n < 4 {
            return Err(BitcoinError::InvalidTransaction);
        }
        let vsub = slice_subrange(data, 0, 4);
        let version = i32_from_u32(u32_from_le_bytes(vsub));
        proof {
            assert(vsub@ =~= data@.subrange(0, 4));
        }
        let (n_in, c1) = match decode_varint(data, 4) {
            Ok(p) => p,
            Err(e) => {
                return Err(e);
            },
        };
        let ghost in_base = 4 + c1 as int;
        let mut pos: usize = 4 + c1;
        let mut inputs: Vec<TxInput> = Vec::new();
        let mut k: u64 = 0;
        proof {
            assert(inputs@.map_values(|x: TxInput| x@) =~= Seq::<TxInputModel>::empty());
        }
        while k < n_in
            invariant
                n == data@.len(),
                in_base <= pos <= data@.len(),
                k <= n_in,
                ({
                    let full = spec_decode_inputs(data@.skip(in_base), n_in as nat);
                    let rest = spec_decode_inputs(data@.skip(pos as int), (n_in - k) as nat);
                    match rest {
                        Ok(p) => full == Ok::<(Seq<TxInputModel>, int), BitcoinError>(
                            (inputs@.map_values(|x: TxInput| x@) + p.0, (pos - in_base) + p.1),
                        ),
                        Err(e) => full == Err::<(Seq<TxInputModel>, int), BitcoinError>(e),
                    }
                }),
            decreases n_in - k,
        {
            match decode_input(data, pos) {
                Err(e) => {
                    return Err(e);
                },
                Ok((inp, c)) => {
                    proof {
                        assert(data@.skip(pos as int).skip(c as int) =~= data@.skip(pos + c));
                        assert(inputs@.push(inp).map_values(|x: TxInput| x@) =~= inputs@.map_values(
                            |x: TxInput| x@,
                        ).push(inp@));
                        let tail = spec_decode_inputs(data@.skip(pos + c), (n_in - k - 1) as nat);
                        if tail is Ok {
                            assert((inputs@.map_values(|x: TxInput| x@) + (seq![inp@]
                                + tail->Ok_0.0)) =~= (inputs@.map_values(|x: TxInput| x@).push(
                                inp@,
                            ) + tail->Ok_0.0));
                        }
                    }
                    inputs.push(inp);
                    pos = pos + c;
                },
            }
            k = k + 1;
        }
        proof {
            assert(spec_decode_inputs(data@.skip(pos as int), 0) == Ok::<
                (Seq<TxInputModel>, int),
                BitcoinError,
            >((Seq::<TxInputModel>::empty(), 0)));
            assert(inputs@.map_values(|x: TxInput| x@) + Seq::<TxInputModel>::empty()
                =~= inputs@.map_values(|x: TxInput| x@));
        }
        let (n_out, c3) = match decode_varint(data, pos) {
            Ok(p) => p,
            Err(e) => {
                return Err(e);
            },
        };
        let ghost out_base = pos + c3 as int;
        let mut pos2: usize = pos + c3;
        let mut outputs: Vec<TxOutput> = Vec::new();
        let mut m: u64 = 0;
        proof {
            assert(outputs@.map_values(|x: TxOutput| x@) =~= Seq::<TxOutputModel>::empty());
        }
        while m < n_out
            invariant
                n == data@.len(),
                out_base <= pos2 <= data@.len(),
                m <= n_out,
                ({
                    let full = spec_decode_outputs(data@.skip(out_base), n_out as nat);
                    let rest = spec_decode_outputs(data@.skip(pos2 as int), (n_out - m) as nat);
                    match rest {
                        Ok(p) => full == Ok::<(Seq<TxOutputModel>, int), BitcoinError>(
                            (outputs@.map_values(|x: TxOutput| x@) + p.0, (pos2 - out_base) + p.1),
                        ),
                        Err(e) => full == Err::<(Seq<TxOutputModel>, int), BitcoinError>(e),
                    }
                }),
            decreases n_out - m,
        {
            match decode_output(data, pos2) {
                Err(e) => {
                    return Err(e);
                },
                Ok((outp, c)) => {
                    proof {
                        assert(data@.skip(pos2 as int).skip(c as int) =~= data@.skip(pos2 + c));
                        assert(outputs@.push(outp).map_values(|x: TxOutput| x@)
                            =~= outputs@.map_values(|x: TxOutput| x@).push(outp@));
                        let tail = spec_decode_outputs(data@.skip(pos2 + c), (n_out - m - 1) as nat);
                        if tail is Ok {
                            assert((outputs@.map_values(|x: TxOutput| x@) + (seq![outp@]
                                + tail->Ok_0.0)) =~= (outputs@.map_values(|x: TxOutput| x@).push(
                                outp@,
                            ) + tail->Ok_0.0));
                        }
                    }
                    outputs.push(outp);
                    pos2 = pos2 + c;
                },
            }
            m = m + 1;
        }
        proof {
            assert(spec_decode_outputs(data@.skip(pos2 as int), 0) == Ok::<
                (Seq<TxOutputModel>, int),
                BitcoinError,
            >((Seq::<TxOutputModel>::empty(), 0)));
            assert(outputs@.map_values(|x: TxOutput| x@) + Seq::<TxOutputModel>::empty()
                =~= outputs@.map_values(|x: TxOutput| x@));
        }
        if n - pos2 < 4 {
            return Err(BitcoinError::InvalidTransaction);
        }
        let lsub = slice_subrange(data, pos2, pos2 + 4);
        let lock_time = u32_from_le_bytes(lsub);
        proof {
            assert(lsub@ =~= data@.subrange(pos2 as int, pos2 + 4));
        }
        if pos2 + 4 != n {
            return Err(BitcoinError::InvalidTransaction);
        }
        let tx = LegacyTransaction { version, inputs, outputs, lock_time };
        proof {
            assert(tx@ =~= spec_decode_transaction(data@)->Ok_0);
        }
        Ok(tx)
    }
}

} // verus!
