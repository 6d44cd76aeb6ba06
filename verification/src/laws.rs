//! The global guarantees of the codec, each proved over the model: encode
//! followed by decode returns the original value; a truncated encoding
//! never decodes; trailing bytes are rejected; an over-long declared script
//! length is rejected.

use vstd::bytes::{
    lemma_auto_spec_u32_to_from_le_bytes, lemma_auto_spec_u64_to_from_le_bytes,
    spec_u32_to_le_bytes, spec_u64_to_le_bytes,
};
use vstd::prelude::*;

use crate::errors::BitcoinError;
use crate::model::{
    lemma_i32_u32_inverse, spec_decode_input, spec_decode_inputs,
    spec_decode_outpoint, spec_decode_output, spec_decode_outputs, spec_decode_transaction,
    spec_decode_transaction_fields, spec_decode_varint, spec_encode_input, spec_encode_inputs,
    spec_encode_outpoint, spec_encode_output, spec_encode_outputs, spec_encode_transaction,
    spec_encode_varint, u32_of_i32, wf_input, wf_outpoint, wf_output, wf_transaction,
    OutPointModel, TransactionModel, TxInputModel, TxOutputModel,
};
use crate::varint::lemma_decode_encode_varint;

verus! {

/// Every unsigned 64-bit value decodes back from its own encoding,
/// consuming exactly the encoding's length.
pub proof fn lemma_varint_round_trip(n: u64)
    ensures
        spec_decode_varint(spec_encode_varint(n)) == Ok::<(u64, int), BitcoinError>(
            (n, spec_encode_varint(n).len() as int),
        ),
{
    lemma_decode_encode_varint(n, Seq::<u8>::empty());
    assert(spec_encode_varint(n) + Seq::<u8>::empty() =~= spec_encode_varint(n));
}

/// An encoded out-point, followed by anything, decodes back to its value.
pub proof fn lemma_decode_encode_outpoint(p: OutPointModel, rest: Seq<u8>)
    requires
        wf_outpoint(p),
    ensures
        spec_decode_outpoint(spec_encode_outpoint(p) + rest) == Ok::<
            (OutPointModel, int),
            BitcoinError,
        >((p, 36)),
{
    lemma_auto_spec_u32_to_from_le_bytes();
    let s = spec_encode_outpoint(p) + rest;
    assert(s.subrange(0, 32) =~= p.txid);
    assert(s.subrange(32, 36) =~= spec_u32_to_le_bytes(p.vout));
    assert(spec_decode_outpoint(s)->Ok_0.0 =~= p);
}

/// An encoded input, followed by anything, decodes back to its value.
pub proof fn lemma_decode_encode_input(i: TxInputModel, rest: Seq<u8>)
    requires
        wf_input(i),
    ensures
        spec_decode_input(spec_encode_input(i) + rest) == Ok::<(TxInputModel, int), BitcoinError>(
            (i, spec_encode_input(i).len() as int),
        ),
{
    lemma_auto_spec_u32_to_from_le_bytes();
    let eo = spec_encode_outpoint(i.previous_output);
    let ev = spec_encode_varint(i.script_sig.len() as u64);
    let esq = spec_u32_to_le_bytes(i.sequence);
    let e = spec_encode_input(i);
    let s = e + rest;
    let tail0 = ev + (i.script_sig + (esq + rest));
    assert(s =~= eo + tail0);
    lemma_decode_encode_outpoint(i.previous_output, tail0);
    let c1 = ev.len() as int;
    let len = i.script_sig.len() as int;
    assert(s.skip(36) =~= tail0);
    lemma_decode_encode_varint(i.script_sig.len() as u64, i.script_sig + (esq + rest));
    assert(s.len() - 36 - c1 - len == 4 + rest.len());
    assert(s.subrange(36 + c1, 36 + c1 + len) =~= i.script_sig);
    assert(s.subrange(36 + c1 + len, 36 + c1 + len + 4) =~= esq);
    assert(spec_decode_input(s)->Ok_0.0 =~= i);
    assert(e.len() == 36 + c1 + len + 4);
}

/// An encoded output, followed by anything, decodes back to its value.
pub proof fn lemma_decode_encode_output(o: TxOutputModel, rest: Seq<u8>)
    requires
        wf_output(o),
    ensures
        spec_decode_output(spec_encode_output(o) + rest) == Ok::<
            (TxOutputModel, int),
            BitcoinError,
        >((o, spec_encode_output(o).len() as int)),
{
    lemma_auto_spec_u64_to_from_le_bytes();
    let evb = spec_u64_to_le_bytes(o.value);
    let ev = spec_encode_varint(o.script_pubkey.len() as u64);
    let e = spec_encode_output(o);
    let s = e + rest;
    let c1 = ev.len() as int;
    let len = o.script_pubkey.len() as int;
    assert(s.subrange(0, 8) =~= evb);
    assert(s.skip(8) =~= ev + (o.script_pubkey + rest));
    lemma_decode_encode_varint(o.script_pubkey.len() as u64, o.script_pubkey + rest);
    assert(s.len() - 8 - c1 - len == rest.len());
    assert(s.subrange(8 + c1, 8 + c1 + len) =~= o.script_pubkey);
    assert(spec_decode_output(s)->Ok_0.0 =~= o);
    assert(e.len() == 8 + c1 + len);
}

/// An encoded sequence of inputs, followed by anything, decodes back to
/// exactly those inputs.
pub proof fn lemma_decode_encode_inputs(l: Seq<TxInputModel>, rest: Seq<u8>)
    requires
        forall|k: int| 0 <= k < l.len() ==> wf_input(#[trigger] l[k]),
    ensures
        spec_decode_inputs(spec_encode_inputs(l) + rest, l.len()) == Ok::<
            (Seq<TxInputModel>, int),
            BitcoinError,
        >((l, spec_encode_inputs(l).len() as int)),
    decreases l.len(),
{
    if l.len() == 0 {
        assert(spec_encode_inputs(l) + rest =~= rest);
        assert(l =~= Seq::<TxInputModel>::empty());
    } else {
        let e0 = spec_encode_input(l[0]);
        let erest = spec_encode_inputs(l.drop_first());
        let s = spec_encode_inputs(l) + rest;
        assert(s =~= e0 + (erest + rest));
        lemma_decode_encode_input(l[0], erest + rest);
        assert(s.skip(e0.len() as int) =~= erest + rest);
        assert(forall|k: int|
            0 <= k < l.drop_first().len() ==> wf_input(#[trigger] l.drop_first()[k]));
        lemma_decode_encode_inputs(l.drop_first(), rest);
        assert(seq![l[0]] + l.drop_first() =~= l);
        assert(s.len() - rest.len() == e0.len() + erest.len());
    }
}

/// An encoded sequence of outputs, followed by anything, decodes back to
/// exactly those outputs.
pub proof fn lemma_decode_encode_outputs(l: Seq<TxOutputModel>, rest: Seq<u8>)
    requires
        forall|k: int| 0 <= k < l.len() ==> wf_output(#[trigger] l[k]),
    ensures
        spec_decode_outputs(spec_encode_outputs(l) + rest, l.len()) == Ok::<
            (Seq<TxOutputModel>, int),
            BitcoinError,
        >((l, spec_encode_outputs(l).len() as int)),
    decreases l.len(),
{
    if l.len() == 0 {
        assert(spec_encode_outputs(l) + rest =~= rest);
        assert(l =~= Seq::<TxOutputModel>::empty());
    } else {
        let e0 = spec_encode_output(l[0]);
        let erest = spec_encode_outputs(l.drop_first());
        let s = spec_encode_outputs(l) + rest;
        assert(s =~= e0 + (erest + rest));
        lemma_decode_encode_output(l[0], erest + rest);
        assert(s.skip(e0.len() as int) =~= erest + rest);
        assert(forall|k: int|
            0 <= k < l.drop_first().len() ==> wf_output(#[trigger] l.drop_first()[k]));
        lemma_decode_encode_outputs(l.drop_first(), rest);
        assert(seq![l[0]] + l.drop_first() =~= l);
        assert(s.len() - rest.len() == e0.len() + erest.len());
    }
}

/// All fields of an encoded transaction, followed by anything, decode back
/// to the transaction, consuming exactly the encoding.
#[verifier::rlimit(100)]
pub proof fn lemma_decode_encode_transaction_fields(t: TransactionModel, rest: Seq<u8>)
    requires
        wf_transaction(t),
    ensures
        spec_decode_transaction_fields(spec_encode_transaction(t) + rest) == Ok::<
            (TransactionModel, int),
            BitcoinError,
        >((t, spec_encode_transaction(t).len() as int)),
{
    lemma_auto_spec_u32_to_from_le_bytes();
    let ever = spec_u32_to_le_bytes(u32_of_i32(t.version));
    let evin = spec_encode_varint(t.inputs.len() as u64);
    let ein = spec_encode_inputs(t.inputs);
    let evout = spec_encode_varint(t.outputs.len() as u64);
    let eout = spec_encode_outputs(t.outputs);
    let elock = spec_u32_to_le_bytes(t.lock_time);
    let e = spec_encode_transaction(t);
    let s = e + rest;
    let c1 = evin.len() as int;
    let c2 = ein.len() as int;
    let c3 = evout.len() as int;
    let c4 = eout.len() as int;
    assert(s.subrange(0, 4) =~= ever);
    lemma_i32_u32_inverse(t.version);
    assert(s.skip(4) =~= evin + (ein + (evout + (eout + (elock + rest)))));
    lemma_decode_encode_varint(t.inputs.len() as u64, ein + (evout + (eout + (elock + rest))));
    assert((t.inputs.len() as u64) as nat == t.inputs.len());
    assert(s.skip(4 + c1) =~= ein + (evout + (eout + (elock + rest))));
    lemma_decode_encode_inputs(t.inputs, evout + (eout + (elock + rest)));
    assert(s.skip(4 + c1 + c2) =~= evout + (eout + (elock + rest)));
    lemma_decode_encode_varint(t.outputs.len() as u64, eout + (elock + rest));
    assert((t.outputs.len() as u64) as nat == t.outputs.len());
    assert(s.skip(4 + c1 + c2 + c3) =~= eout + (elock + rest));
    lemma_decode_encode_outputs(t.outputs, elock + rest);
    let used = 4 + c1 + c2 + c3 + c4;
    assert(s.len() - used == 4 + rest.len());
    assert(s.subrange(used, used + 4) =~= elock);
    assert(spec_decode_transaction_fields(s)->Ok_0.0 =~= t);
    assert(e.len() == used + 4);
}

/// Round trip: decoding the encoding of any well-formed transaction gives
/// back exactly that transaction.
pub proof fn lemma_transaction_round_trip(t: TransactionModel)
    requires
        wf_transaction(t),
    ensures
        spec_decode_transaction(spec_encode_transaction(t)) == Ok::<
            TransactionModel,
            BitcoinError,
        >(t),
{
    lemma_decode_encode_transaction_fields(t, Seq::<u8>::empty());
    assert(spec_encode_transaction(t) + Seq::<u8>::empty() =~= spec_encode_transaction(t));
}

/// Appending anything non-empty after a valid encoded transaction makes
/// decoding fail: the buffer must be consumed exactly.
pub proof fn lemma_trailing_bytes_rejected(t: TransactionModel, extra: Seq<u8>)
    requires
        wf_transaction(t),
        extra.len() > 0,
    ensures
        spec_decode_transaction(spec_encode_transaction(t) + extra) == Err::<
            TransactionModel,
            BitcoinError,
        >(BitcoinError::InvalidTransaction),
{
    lemma_decode_encode_transaction_fields(t, extra);
}

/// A truncated out-point encoding never decodes.
pub proof fn lemma_outpoint_truncation(p: OutPointModel, j: int)
    requires
        wf_outpoint(p),
        0 <= j < spec_encode_outpoint(p).len(),
    ensures
        spec_decode_outpoint(spec_encode_outpoint(p).subrange(0, j)) == Err::<
            (OutPointModel, int),
            BitcoinError,
        >(BitcoinError::InvalidTransaction),
{
    lemma_auto_spec_u32_to_from_le_bytes();
}

/// A truncated input encoding never decodes: depending on where the cut
/// falls, the out-point, the length varint, the script bytes or the
/// sequence field is incomplete, and each case is rejected.
pub proof fn lemma_input_truncation(i: TxInputModel, j: int)
    requires
        wf_input(i),
        0 <= j < spec_encode_input(i).len(),
    ensures
        spec_decode_input(spec_encode_input(i).subrange(0, j)) is Err,
{
    lemma_auto_spec_u32_to_from_le_bytes();
    let eo = spec_encode_outpoint(i.previous_output);
    let ev = spec_encode_varint(i.script_sig.len() as u64);
    let esq = spec_u32_to_le_bytes(i.sequence);
    let e = spec_encode_input(i);
    let p = e.subrange(0, j);
    let c1 = ev.len() as int;
    let len = i.script_sig.len() as int;
    if j < 36 {
    } else {
        assert(p.subrange(0, 32) =~= i.previous_output.txid);
        assert(p.subrange(32, 36) =~= spec_u32_to_le_bytes(i.previous_output.vout));
        assert(spec_decode_outpoint(p)->Ok_0.0 =~= i.previous_output);
        if j < 36 + c1 {
            assert(p.skip(36) =~= ev.subrange(0, j - 36));
            crate::varint::lemma_varint_truncation(i.script_sig.len() as u64, j - 36);
        } else {
            let tail = (i.script_sig + esq).subrange(0, j - 36 - c1);
            assert(p.skip(36) =~= ev + tail);
            lemma_decode_encode_varint(i.script_sig.len() as u64, tail);
            assert(p.len() - 36 - c1 < len + 4);
        }
    }
}

/// A truncated output encoding never decodes.
pub proof fn lemma_output_truncation(o: TxOutputModel, j: int)
    requires
        wf_output(o),
        0 <= j < spec_encode_output(o).len(),
    ensures
        spec_decode_output(spec_encode_output(o).subrange(0, j)) is Err,
{
    lemma_auto_spec_u64_to_from_le_bytes();
    let ev = spec_encode_varint(o.script_pubkey.len() as u64);
    let e = spec_encode_output(o);
    let p = e.subrange(0, j);
    let c1 = ev.len() as int;
    let len = o.script_pubkey.len() as int;
    if j < 8 {
    } else if j < 8 + c1 {
        assert(p.skip(8) =~= ev.subrange(0, j - 8));
        crate::varint::lemma_varint_truncation(o.script_pubkey.len() as u64, j - 8);
    } else {
        let tail = o.script_pubkey.subrange(0, j - 8 - c1);
        assert(p.skip(8) =~= ev + tail);
        lemma_decode_encode_varint(o.script_pubkey.len() as u64, tail);
        assert(p.len() - 8 - c1 < len);
    }
}

/// A truncated encoding of a sequence of inputs never decodes as that many
/// inputs.
pub proof fn lemma_inputs_truncation(l: Seq<TxInputModel>, j: int)
    requires
        forall|k: int| 0 <= k < l.len() ==> wf_input(#[trigger] l[k]),
        0 <= j < spec_encode_inputs(l).len(),
    ensures
        spec_decode_inputs(spec_encode_inputs(l).subrange(0, j), l.len()) is Err,
    decreases l.len(),
{
    let e0 = spec_encode_input(l[0]);
    let erest = spec_encode_inputs(l.drop_first());
    let e = spec_encode_inputs(l);
    let p = e.subrange(0, j);
    if j < e0.len() {
        assert(p =~= e0.subrange(0, j));
        lemma_input_truncation(l[0], j);
    } else {
        let tail = erest.subrange(0, j - e0.len());
        assert(p =~= e0 + tail);
        lemma_decode_encode_input(l[0], tail);
        assert(p.skip(e0.len() as int) =~= tail);
        assert(forall|k: int|
            0 <= k < l.drop_first().len() ==> wf_input(#[trigger] l.drop_first()[k]));
        lemma_inputs_truncation(l.drop_first(), j - e0.len());
    }
}

/// A truncated encoding of a sequence of outputs never decodes as that
/// many outputs.
pub proof fn lemma_outputs_truncation(l: Seq<TxOutputModel>, j: int)
    requires
        forall|k: int| 0 <= k < l.len() ==> wf_output(#[trigger] l[k]),
        0 <= j < spec_encode_outputs(l).len(),
    ensures
        spec_decode_outputs(spec_encode_outputs(l).subrange(0, j), l.len()) is Err,
    decreases l.len(),
{
    let e0 = spec_encode_output(l[0]);
    let erest = spec_encode_outputs(l.drop_first());
    let e = spec_encode_outputs(l);
    let p = e.subrange(0, j);
    if j < e0.len() {
        assert(p =~= e0.subrange(0, j));
        lemma_output_truncation(l[0], j);
    } else {
        let tail = erest.subrange(0, j - e0.len());
        assert(p =~= e0 + tail);
        lemma_decode_encode_output(l[0], tail);
        assert(p.skip(e0.len() as int) =~= tail);
        assert(forall|k: int|
            0 <= k < l.drop_first().len() ==> wf_output(#[trigger] l.drop_first()[k]));
        lemma_outputs_truncation(l.drop_first(), j - e0.len());
    }
}

/// Truncation safety: cutting a valid encoded transaction anywhere
/// strictly before its end makes decoding fail — it never produces a
/// wrong but valid-looking transaction.
#[verifier::rlimit(100)]
pub proof fn lemma_transaction_truncation(t: TransactionModel, j: int)
    requires
        wf_transaction(t),
        0 <= j < spec_encode_transaction(t).len(),
    ensures
        spec_decode_transaction(spec_encode_transaction(t).subrange(0, j)) is Err,
{
    lemma_auto_spec_u32_to_from_le_bytes();
    let ever = spec_u32_to_le_bytes(u32_of_i32(t.version));
    let evin = spec_encode_varint(t.inputs.len() as u64);
    let ein = spec_encode_inputs(t.inputs);
    let evout = spec_encode_varint(t.outputs.len() as u64);
    let eout = spec_encode_outputs(t.outputs);
    let elock = spec_u32_to_le_bytes(t.lock_time);
    let e = spec_encode_transaction(t);
    let p = e.subrange(0, j);
    let c1 = evin.len() as int;
    let c2 = ein.len() as int;
    let c3 = evout.len() as int;
    let c4 = eout.len() as int;
    assert((t.inputs.len() as u64) as nat == t.inputs.len());
    assert((t.outputs.len() as u64) as nat == t.outputs.len());
    if j < 4 {
    } else {
        assert(p.subrange(0, 4) =~= ever);
        if j < 4 + c1 {
            assert(p.skip(4) =~= evin.subrange(0, j - 4));
            crate::varint::lemma_varint_truncation(t.inputs.len() as u64, j - 4);
        } else {
            let r1 = (ein + (evout + (eout + elock))).subrange(0, j - 4 - c1);
            assert(p.skip(4) =~= evin + r1);
            lemma_decode_encode_varint(t.inputs.len() as u64, r1);
            assert(p.skip(4 + c1) =~= r1);
            if j < 4 + c1 + c2 {
                assert(r1 =~= ein.subrange(0, j - 4 - c1));
                lemma_inputs_truncation(t.inputs, j - 4 - c1);
            } else {
                let r2 = (evout + (eout + elock)).subrange(0, j - 4 - c1 - c2);
                assert(r1 =~= ein + r2);
                lemma_decode_encode_inputs(t.inputs, r2);
                assert(p.skip(4 + c1 + c2) =~= r2);
                if j < 4 + c1 + c2 + c3 {
                    assert(r2 =~= evout.subrange(0, j - 4 - c1 - c2));
                    crate::varint::lemma_varint_truncation(t.outputs.len() as u64, j - 4 - c1 - c2);
                } else {
                    let r3 = (eout + elock).subrange(0, j - 4 - c1 - c2 - c3);
                    assert(r2 =~= evout + r3);
                    lemma_decode_encode_varint(t.outputs.len() as u64, r3);
                    assert(p.skip(4 + c1 + c2 + c3) =~= r3);
                    if j < 4 + c1 + c2 + c3 + c4 {
                        assert(r3 =~= eout.subrange(0, j - 4 - c1 - c2 - c3));
                        lemma_outputs_truncation(t.outputs, j - 4 - c1 - c2 - c3);
                    } else {
                        let r4 = elock.subrange(0, j - 4 - c1 - c2 - c3 - c4);
                        assert(r3 =~= eout + r4);
                        lemma_decode_encode_outputs(t.outputs, r4);
                        assert(p.len() - (4 + c1 + c2 + c3 + c4) < 4);
                    }
                }
            }
        }
    }
}

/// A successfully decoded out-point came from exactly its own encoding.
pub proof fn lemma_outpoint_canonical(s: Seq<u8>, m: OutPointModel, c: int)
    requires
        spec_decode_outpoint(s) == Ok::<(OutPointModel, int), BitcoinError>((m, c)),
    ensures
        wf_outpoint(m),
        c == 36,
        spec_encode_outpoint(m) == s.subrange(0, 36),
{
    lemma_auto_spec_u32_to_from_le_bytes();
    assert(spec_u32_to_le_bytes(vstd::bytes::spec_u32_from_le_bytes(s.subrange(32, 36)))
        == s.subrange(32, 36));
    assert(spec_encode_outpoint(m) =~= s.subrange(0, 36));
}

/// A successfully decoded input came from exactly its own encoding.
pub proof fn lemma_input_canonical(s: Seq<u8>, m: TxInputModel, c: int)
    requires
        spec_decode_input(s) == Ok::<(TxInputModel, int), BitcoinError>((m, c)),
    ensures
        wf_input(m),
        40 <= c <= s.len(),
        spec_encode_input(m) == s.subrange(0, c),
{
    lemma_auto_spec_u32_to_from_le_bytes();
    let op = spec_decode_outpoint(s);
    lemma_outpoint_canonical(s, op->Ok_0.0, op->Ok_0.1);
    let vr = spec_decode_varint(s.skip(36));
    let len = vr->Ok_0.0;
    let c1 = vr->Ok_0.1;
    crate::varint::lemma_varint_canonical(s.skip(36), len, c1);
    assert(m.script_sig.len() == len);
    assert(m.script_sig.len() as u64 == len);
    assert(s.skip(36).subrange(0, c1) =~= s.subrange(36, 36 + c1));
    assert(spec_u32_to_le_bytes(
        vstd::bytes::spec_u32_from_le_bytes(s.subrange(36 + c1 + len, 36 + c1 + len + 4)),
    ) == s.subrange(36 + c1 + len, 36 + c1 + len + 4));
    assert(spec_encode_input(m) =~= s.subrange(0, c));
}

/// A successfully decoded output came from exactly its own encoding.
pub proof fn lemma_output_canonical(s: Seq<u8>, m: TxOutputModel, c: int)
    requires
        spec_decode_output(s) == Ok::<(TxOutputModel, int), BitcoinError>((m, c)),
    ensures
        wf_output(m),
        9 <= c <= s.len(),
        spec_encode_output(m) == s.subrange(0, c),
{
    lemma_auto_spec_u64_to_from_le_bytes();
    let vr = spec_decode_varint(s.skip(8));
    let len = vr->Ok_0.0;
    let c1 = vr->Ok_0.1;
    crate::varint::lemma_varint_canonical(s.skip(8), len, c1);
    assert(m.script_pubkey.len() == len);
    assert(m.script_pubkey.len() as u64 == len);
    assert(s.skip(8).subrange(0, c1) =~= s.subrange(8, 8 + c1));
    assert(spec_u64_to_le_bytes(vstd::bytes::spec_u64_from_le_bytes(s.subrange(0, 8)))
        == s.subrange(0, 8));
    assert(spec_encode_output(m) =~= s.subrange(0, c));
}

/// A successfully decoded sequence of inputs came from exactly its own
/// encoding.
#[verifier::rlimit(60)]
pub proof fn lemma_inputs_canonical(s: Seq<u8>, n: nat, ms: Seq<TxInputModel>, c: int)
    requires
        spec_decode_inputs(s, n) == Ok::<(Seq<TxInputModel>, int), BitcoinError>((ms, c)),
    ensures
        ms.len() == n,
        forall|k: int| 0 <= k < ms.len() ==> wf_input(#[trigger] ms[k]),
        0 <= c <= s.len(),
        spec_encode_inputs(ms) == s.subrange(0, c),
    decreases n,
{
    if n == 0 {
        assert(ms =~= Seq::<TxInputModel>::empty());
        assert(spec_encode_inputs(ms) =~= s.subrange(0, 0));
    } else {
        let fr = spec_decode_input(s);
        let first = fr->Ok_0.0;
        let c0 = fr->Ok_0.1;
        lemma_input_canonical(s, first, c0);
        let rr = spec_decode_inputs(s.skip(c0), (n - 1) as nat);
        let rest = rr->Ok_0.0;
        let c1 = rr->Ok_0.1;
        lemma_inputs_canonical(s.skip(c0), (n - 1) as nat, rest, c1);
        assert(ms[0] == first);
        assert(ms.drop_first() =~= rest);
        assert(s.skip(c0).subrange(0, c1) =~= s.subrange(c0, c0 + c1));
        assert(spec_encode_inputs(ms) =~= s.subrange(0, c));
    }
}

/// A successfully decoded sequence of outputs came from exactly its own
/// encoding.
#[verifier::rlimit(60)]
pub proof fn lemma_outputs_canonical(s: Seq<u8>, n: nat, ms: Seq<TxOutputModel>, c: int)
    requires
        spec_decode_outputs(s, n) == Ok::<(Seq<TxOutputModel>, int), BitcoinError>((ms, c)),
    ensures
        ms.len() == n,
        forall|k: int| 0 <= k < ms.len() ==> wf_output(#[trigger] ms[k]),
        0 <= c <= s.len(),
        spec_encode_outputs(ms) == s.subrange(0, c),
    decreases n,
{
    if n == 0 {
        assert(ms =~= Seq::<TxOutputModel>::empty());
        assert(spec_encode_outputs(ms) =~= s.subrange(0, 0));
    } else {
        let fr = spec_decode_output(s);
        let first = fr->Ok_0.0;
        let c0 = fr->Ok_0.1;
        lemma_output_canonical(s, first, c0);
        let rr = spec_decode_outputs(s.skip(c0), (n - 1) as nat);
        let rest = rr->Ok_0.0;
        let c1 = rr->Ok_0.1;
        lemma_outputs_canonical(s.skip(c0), (n - 1) as nat, rest, c1);
        assert(ms[0] == first);
        assert(ms.drop_first() =~= rest);
        assert(s.skip(c0).subrange(0, c1) =~= s.subrange(c0, c0 + c1));
        assert(spec_encode_outputs(ms) =~= s.subrange(0, c));
    }
}

/// Six adjacent pieces of a sequence, concatenated in order, give back
/// the whole sequence.
proof fn lemma_assemble_six(
    s: Seq<u8>,
    a: int,
    b: int,
    c: int,
    d: int,
    e: int,
    p0: Seq<u8>,
    p1: Seq<u8>,
    p2: Seq<u8>,
    p3: Seq<u8>,
    p4: Seq<u8>,
    p5: Seq<u8>,
)
    requires
        0 <= 4 <= a <= b <= c <= d <= e == s.len(),
        p0 == s.subrange(0, 4),
        p1 == s.subrange(4, a),
        p2 == s.subrange(a, b),
        p3 == s.subrange(b, c),
        p4 == s.subrange(c, d),
        p5 == s.subrange(d, e),
    ensures
        ((((p0 + p1) + p2) + p3) + p4) + p5 == s,
{
    assert(p0 + p1 =~= s.subrange(0, a));
    assert(s.subrange(0, a) + p2 =~= s.subrange(0, b));
    assert(s.subrange(0, b) + p3 =~= s.subrange(0, c));
    assert(s.subrange(0, c) + p4 =~= s.subrange(0, d));
    assert(s.subrange(0, d) + p5 =~= s.subrange(0, e));
    assert(s.subrange(0, e) =~= s);
}

/// Canonical form: whatever buffer decodes as a transaction is exactly the
/// encoding of that transaction, so each value has one accepted encoding.
#[verifier::rlimit(100)]
pub proof fn lemma_transaction_canonical(s: Seq<u8>, t: TransactionModel)
    requires
        spec_decode_transaction(s) == Ok::<TransactionModel, BitcoinError>(t),
    ensures
        wf_transaction(t),
        spec_encode_transaction(t) == s,
{
    lemma_auto_spec_u32_to_from_le_bytes();
    let v1 = spec_decode_varint(s.skip(4));
    let n_in = v1->Ok_0.0;
    let c1 = v1->Ok_0.1;
    crate::varint::lemma_varint_canonical(s.skip(4), n_in, c1);
    let ir = spec_decode_inputs(s.skip(4 + c1), n_in as nat);
    let c2 = ir->Ok_0.1;
    lemma_inputs_canonical(s.skip(4 + c1), n_in as nat, t.inputs, c2);
    let v2 = spec_decode_varint(s.skip(4 + c1 + c2));
    let n_out = v2->Ok_0.0;
    let c3 = v2->Ok_0.1;
    crate::varint::lemma_varint_canonical(s.skip(4 + c1 + c2), n_out, c3);
    let outr = spec_decode_outputs(s.skip(4 + c1 + c2 + c3), n_out as nat);
    let c4 = outr->Ok_0.1;
    lemma_outputs_canonical(s.skip(4 + c1 + c2 + c3), n_out as nat, t.outputs, c4);
    let used = 4 + c1 + c2 + c3 + c4;
    crate::model::lemma_u32_i32_inverse(vstd::bytes::spec_u32_from_le_bytes(s.subrange(0, 4)));
    assert(t.inputs.len() as u64 == n_in);
    assert(t.outputs.len() as u64 == n_out);
    let p0 = spec_u32_to_le_bytes(u32_of_i32(t.version));
    let p1 = spec_encode_varint(t.inputs.len() as u64);
    let p2 = spec_encode_inputs(t.inputs);
    let p3 = spec_encode_varint(t.outputs.len() as u64);
    let p4 = spec_encode_outputs(t.outputs);
    let p5 = spec_u32_to_le_bytes(t.lock_time);
    assert(p0 == s.subrange(0, 4));
    assert(p1 =~= s.subrange(4, 4 + c1));
    assert(p2 =~= s.subrange(4 + c1, 4 + c1 + c2));
    assert(p3 =~= s.subrange(4 + c1 + c2, 4 + c1 + c2 + c3));
    assert(p4 =~= s.subrange(4 + c1 + c2 + c3, used));
    assert(p5 == s.subrange(used, used + 4));
    lemma_assemble_six(
        s,
        4 + c1,
        4 + c1 + c2,
        4 + c1 + c2 + c3,
        used,
        used + 4,
        p0,
        p1,
        p2,
        p3,
        p4,
        p5,
    );
    assert(spec_encode_transaction(t) == ((((p0 + p1) + p2) + p3) + p4) + p5);
}

/// No two distinct well-formed transactions share an encoding.
pub proof fn lemma_encoding_injective(t1: TransactionModel, t2: TransactionModel)
    requires
        wf_transaction(t1),
        wf_transaction(t2),
        spec_encode_transaction(t1) == spec_encode_transaction(t2),
    ensures
        t1 == t2,
{
    lemma_transaction_round_trip(t1);
    lemma_transaction_round_trip(t2);
}

/// A declared script length larger than the bytes remaining makes an input
/// fail to decode with `InvalidScript`, before any script byte is read.
pub proof fn lemma_input_script_length_bound(s: Seq<u8>, prev: OutPointModel, c0: int, len: u64, c1: int)
    requires
        spec_decode_outpoint(s) == Ok::<(OutPointModel, int), BitcoinError>((prev, c0)),
        spec_decode_varint(s.skip(c0)) == Ok::<(u64, int), BitcoinError>((len, c1)),
        s.len() - c0 - c1 < len,
    ensures
        spec_decode_input(s) == Err::<(TxInputModel, int), BitcoinError>(
            BitcoinError::InvalidScript,
        ),
{
}

/// A declared script length larger than the bytes remaining makes an
/// output fail to decode with `InvalidScript`.
pub proof fn lemma_output_script_length_bound(s: Seq<u8>, len: u64, c1: int)
    requires
        s.len() >= 8,
        spec_decode_varint(s.skip(8)) == Ok::<(u64, int), BitcoinError>((len, c1)),
        s.len() - 8 - c1 < len,
    ensures
        spec_decode_output(s) == Err::<(TxOutputModel, int), BitcoinError>(
            BitcoinError::InvalidScript,
        ),
{
}

} // verus!

