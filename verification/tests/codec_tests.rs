use legacy_tx::codec::{
    decode_input, decode_outpoint, decode_output, read_bytes32, read_i32_le, read_u32_le,
    read_u64_le, write_bytes32, write_i32_le, write_u32_le, write_u64_le, BitcoinSerialize,
};
use legacy_tx::errors::BitcoinError;
use legacy_tx::types::{LegacyTransaction, OutPoint, TxInput, TxOutput};
use legacy_tx::varint::{decode_varint, encode_varint};

fn sample_outpoint(fill: u8, vout: u32) -> OutPoint {
    OutPoint { txid: [fill; 32], vout }
}

fn sample_input(fill: u8, script: Vec<u8>, sequence: u32) -> TxInput {
    TxInput { previous_output: sample_outpoint(fill, 7), script_sig: script, sequence }
}

fn sample_output(value: u64, script: Vec<u8>) -> TxOutput {
    TxOutput { value, script_pubkey: script }
}

#[test]
fn empty_transaction_encodes_to_ten_bytes() {
    let tx = LegacyTransaction::builder().build();
    assert_eq!(tx.version, 1);
    assert_eq!(tx.lock_time, 0);
    let bytes = tx.serialize();
    assert_eq!(bytes, vec![0x01, 0x00, 0x00, 0x00, 0x00, 0x00, 0x00, 0x00, 0x00, 0x00]);
    let back = LegacyTransaction::decode(&bytes).unwrap();
    assert_eq!(back, tx);
}

#[test]
fn round_trip_with_inputs_and_outputs() {
    let tx = LegacyTransaction::builder()
        .version(2)
        .add_input(sample_input(0xAB, vec![0x51, 0x52, 0x53], 0xFFFF_FFFF))
        .add_input(sample_input(0xCD, vec![], 0))
        .add_output(sample_output(50_000, vec![0x76, 0xA9]))
        .add_output(sample_output(0, vec![]))
        .lock_time(500_000)
        .build();
    let bytes = tx.serialize();
    let back = LegacyTransaction::decode(&bytes).unwrap();
    assert_eq!(back, tx);
}

#[test]
fn round_trip_negative_version() {
    let tx = LegacyTransaction::builder().version(-2).build();
    let bytes = tx.serialize();
    assert_eq!(&bytes[0..4], &[0xFE, 0xFF, 0xFF, 0xFF]);
    let back = LegacyTransaction::decode(&bytes).unwrap();
    assert_eq!(back.version, -2);
}

#[test]
fn round_trip_large_script() {
    let script: Vec<u8> = (0..300u32).map(|i| (i % 256) as u8).collect();
    let tx = LegacyTransaction::builder()
        .add_input(sample_input(0x01, script.clone(), 3))
        .build();
    let bytes = tx.serialize();
    let back = LegacyTransaction::decode(&bytes).unwrap();
    assert_eq!(back.inputs[0].script_sig, script);
}

#[test]
fn varint_one_byte_forms() {
    assert_eq!(encode_varint(0), vec![0x00]);
    assert_eq!(encode_varint(0xFC), vec![0xFC]);
    assert_eq!(decode_varint(&[0x00], 0).unwrap(), (0, 1));
    assert_eq!(decode_varint(&[0xFC], 0).unwrap(), (0xFC, 1));
}

#[test]
fn varint_three_byte_forms() {
    assert_eq!(encode_varint(0xFD), vec![0xFD, 0xFD, 0x00]);
    assert_eq!(encode_varint(0xFFFF), vec![0xFD, 0xFF, 0xFF]);
    assert_eq!(decode_varint(&[0xFD, 0xFD, 0x00], 0).unwrap(), (0xFD, 3));
    assert_eq!(decode_varint(&[0xFD, 0xFF, 0xFF], 0).unwrap(), (0xFFFF, 3));
}

#[test]
fn varint_five_and_nine_byte_forms() {
    assert_eq!(encode_varint(0x10000), vec![0xFE, 0x00, 0x00, 0x01, 0x00]);
    assert_eq!(
        encode_varint(0x1_0000_0000),
        vec![0xFF, 0x00, 0x00, 0x00, 0x00, 0x01, 0x00, 0x00, 0x00]
    );
    assert_eq!(decode_varint(&encode_varint(0xFFFF_FFFF), 0).unwrap(), (0xFFFF_FFFF, 5));
    assert_eq!(decode_varint(&encode_varint(u64::MAX), 0).unwrap(), (u64::MAX, 9));
}

#[test]
fn varint_round_trip_consumes_exact_length() {
    for n in [0u64, 1, 0xFC, 0xFD, 0x1234, 0xFFFF, 0x10000, 0xFFFF_FFFF, 0x1_0000_0000, u64::MAX]
    {
        let enc = encode_varint(n);
        let (v, c) = decode_varint(&enc, 0).unwrap();
        assert_eq!(v, n);
        assert_eq!(c, enc.len());
    }
}

#[test]
fn varint_rejects_non_minimal_encodings() {
    // 0x10 fits in one byte, so the three-byte form is refused.
    assert_eq!(decode_varint(&[0xFD, 0x10, 0x00], 0), Err(BitcoinError::MalformedVarint));
    // 0xFFFF fits in the three-byte form, so the five-byte form is refused.
    assert_eq!(
        decode_varint(&[0xFE, 0xFF, 0xFF, 0x00, 0x00], 0),
        Err(BitcoinError::MalformedVarint)
    );
    // 0xFFFF_FFFF fits in the five-byte form, so the nine-byte form is refused.
    assert_eq!(
        decode_varint(&[0xFF, 0xFF, 0xFF, 0xFF, 0xFF, 0x00, 0x00, 0x00, 0x00], 0),
        Err(BitcoinError::MalformedVarint)
    );
}

#[test]
fn varint_rejects_truncation() {
    assert_eq!(decode_varint(&[], 0), Err(BitcoinError::MalformedVarint));
    assert_eq!(decode_varint(&[0xFD, 0x01], 0), Err(BitcoinError::MalformedVarint));
    assert_eq!(decode_varint(&[0xFE, 0x01, 0x02, 0x03], 0), Err(BitcoinError::MalformedVarint));
    assert_eq!(
        decode_varint(&[0xFF, 0x01, 0x02, 0x03, 0x04, 0x05, 0x06, 0x07], 0),
        Err(BitcoinError::MalformedVarint)
    );
}

#[test]
fn truncating_anywhere_fails_decode() {
    let tx = LegacyTransaction::builder()
        .version(3)
        .add_input(sample_input(0x11, vec![1, 2, 3, 4, 5], 9))
        .add_output(sample_output(1234, vec![6, 7]))
        .lock_time(42)
        .build();
    let bytes = tx.serialize();
    for cut in 0..bytes.len() {
        assert!(LegacyTransaction::decode(&bytes[0..cut]).is_err(), "cut at {cut}");
    }
}

#[test]
fn trailing_byte_fails_decode() {
    let tx = LegacyTransaction::builder()
        .add_input(sample_input(0x22, vec![0xAA], 1))
        .add_output(sample_output(5, vec![0xBB, 0xCC]))
        .build();
    let mut bytes = tx.serialize();
    assert!(LegacyTransaction::decode(&bytes).is_ok());
    bytes.push(0x00);
    assert_eq!(LegacyTransaction::decode(&bytes), Err(BitcoinError::InvalidTransaction));
}

#[test]
fn script_length_beyond_buffer_is_invalid_script() {
    let input = sample_input(0x33, vec![9, 9, 9], 5);
    let mut bytes = input.serialize();
    // Claim 200 script bytes where only 3 follow.
    bytes[36] = 200;
    let shortened = &bytes[0..bytes.len()];
    assert_eq!(decode_input(shortened, 0), Err(BitcoinError::InvalidScript));

    let output = sample_output(77, vec![1]);
    let mut obytes = output.serialize();
    obytes[8] = 50;
    assert_eq!(decode_output(&obytes, 0), Err(BitcoinError::InvalidScript));
}

#[test]
fn transaction_with_overlong_script_is_invalid_script() {
    let tx = LegacyTransaction::builder()
        .add_input(sample_input(0x44, vec![1, 2], 0))
        .build();
    let mut bytes = tx.serialize();
    // The input's script-length varint sits after version (4) + count (1) +
    // out-point (36).
    bytes[41] = 0xFC;
    assert_eq!(LegacyTransaction::decode(&bytes), Err(BitcoinError::InvalidScript));
}

#[test]
fn decode_outpoint_round_trip_and_bounds() {
    let op = sample_outpoint(0x5A, 0xDEAD_BEEF);
    let bytes = op.serialize();
    assert_eq!(bytes.len(), 36);
    let (back, used) = decode_outpoint(&bytes, 0).unwrap();
    assert_eq!(back, op);
    assert_eq!(used, 36);
    assert_eq!(decode_outpoint(&bytes[0..35], 0), Err(BitcoinError::InvalidTransaction));
}

#[test]
fn decode_entities_at_offset() {
    let input = sample_input(0x66, vec![3, 1, 4], 0x01020304);
    let mut buf = vec![0xEE, 0xEE];
    buf.extend_from_slice(&input.serialize());
    let (back, used) = decode_input(&buf, 2).unwrap();
    assert_eq!(back, input);
    assert_eq!(used, buf.len() - 2);

    let output = sample_output(999, vec![8]);
    let mut obuf = vec![0x77];
    obuf.extend_from_slice(&output.serialize());
    let (oback, oused) = decode_output(&obuf, 1).unwrap();
    assert_eq!(oback, output);
    assert_eq!(oused, obuf.len() - 1);
}

#[test]
fn primitive_reads_little_endian() {
    let data = [0x01u8, 0x02, 0x03, 0x04, 0x05, 0x06, 0x07, 0x08, 0x09];
    assert_eq!(read_u32_le(&data, 0), Ok(0x04030201));
    assert_eq!(read_u32_le(&data, 5), Ok(0x09080706));
    assert_eq!(read_u64_le(&data, 1), Ok(0x0908070605040302));
    assert_eq!(read_u32_le(&data, 6), Err(BitcoinError::UnexpectedEndOfBuffer));
    assert_eq!(read_u64_le(&data, 2), Err(BitcoinError::UnexpectedEndOfBuffer));
}

#[test]
fn primitive_reads_signed() {
    let data = [0xFF_u8, 0xFF, 0xFF, 0xFF, 0x00];
    assert_eq!(read_i32_le(&data, 0), Ok(-1));
    assert_eq!(read_i32_le(&data, 1), Ok(0x00FF_FFFF));
    assert_eq!(read_i32_le(&data, 2), Err(BitcoinError::UnexpectedEndOfBuffer));
}

#[test]
fn primitive_reads_fixed_array() {
    let mut data = vec![0u8; 40];
    for (i, b) in data.iter_mut().enumerate() {
        *b = i as u8;
    }
    let arr = read_bytes32(&data, 3).unwrap();
    assert_eq!(&arr[..], &data[3..35]);
    assert_eq!(read_bytes32(&data, 9), Err(BitcoinError::UnexpectedEndOfBuffer));
}

#[test]
fn primitive_writes_little_endian() {
    let mut out = Vec::new();
    write_u32_le(&mut out, 0x04030201);
    assert_eq!(out, vec![0x01, 0x02, 0x03, 0x04]);
    write_i32_le(&mut out, -1);
    assert_eq!(&out[4..8], &[0xFF, 0xFF, 0xFF, 0xFF]);
    write_u64_le(&mut out, 0x0807060504030201);
    assert_eq!(&out[8..16], &[0x01, 0x02, 0x03, 0x04, 0x05, 0x06, 0x07, 0x08]);
    let mut arr = Vec::new();
    write_bytes32(&mut arr, &[0x7Eu8; 32]);
    assert_eq!(arr, vec![0x7E; 32]);
}

#[test]
fn short_buffers_are_invalid_transactions() {
    assert_eq!(LegacyTransaction::decode(&[]), Err(BitcoinError::InvalidTransaction));
    assert_eq!(
        LegacyTransaction::decode(&[0x01, 0x00, 0x00]),
        Err(BitcoinError::InvalidTransaction)
    );
    // Nine bytes: one short of the minimal empty transaction.
    assert_eq!(
        LegacyTransaction::decode(&[0x01, 0x00, 0x00, 0x00, 0x00, 0x00, 0x00, 0x00, 0x00]),
        Err(BitcoinError::InvalidTransaction)
    );
}

#[test]
fn truncated_count_varint_is_malformed() {
    // Version, then a three-byte count form cut short.
    let bytes = [0x01u8, 0x00, 0x00, 0x00, 0xFD, 0x01];
    assert_eq!(LegacyTransaction::decode(&bytes), Err(BitcoinError::MalformedVarint));
}

#[test]
fn non_minimal_count_varint_is_rejected() {
    let tx = LegacyTransaction::builder().build();
    let bytes = tx.serialize();
    // Same transaction, but the zero input count written in the three-byte
    // form instead of the single byte the canonical encoding requires.
    let mut padded = Vec::new();
    padded.extend_from_slice(&bytes[0..4]);
    padded.extend_from_slice(&[0xFD, 0x00, 0x00]);
    padded.extend_from_slice(&bytes[5..]);
    assert_eq!(LegacyTransaction::decode(&padded), Err(BitcoinError::MalformedVarint));
}

#[test]
fn decoded_transactions_reencode_to_the_same_bytes() {
    let tx = LegacyTransaction::builder()
        .version(-7)
        .add_input(sample_input(0x99, vec![0, 255, 3], 11))
        .add_output(sample_output(u64::MAX, vec![42; 77]))
        .lock_time(u32::MAX)
        .build();
    let bytes = tx.serialize();
    let back = LegacyTransaction::decode(&bytes).unwrap();
    assert_eq!(back.serialize(), bytes);
}

#[test]
fn builder_defaults_and_chaining() {
    let b = LegacyTransaction::builder();
    assert_eq!(b.version, 1);
    assert_eq!(b.lock_time, 0);
    assert!(b.inputs.is_empty());
    assert!(b.outputs.is_empty());
    let tx = b
        .version(7)
        .add_output(sample_output(21, vec![]))
        .lock_time(99)
        .build();
    assert_eq!(tx.version, 7);
    assert_eq!(tx.lock_time, 99);
    assert_eq!(tx.inputs.len(), 0);
    assert_eq!(tx.outputs.len(), 1);
    assert_eq!(tx.outputs[0].value, 21);
}

#[test]
fn error_messages() {
    assert_eq!(BitcoinError::InvalidTransaction.message(), "Invalid transaction format");
    assert_eq!(BitcoinError::InvalidScript.message(), "Invalid script format");
    assert_eq!(BitcoinError::InvalidAmount.message(), "Invalid amount");
    assert_eq!(BitcoinError::MalformedVarint.message(), "Malformed varint");
    assert_eq!(BitcoinError::UnexpectedEndOfBuffer.message(), "Unexpected end of buffer");
    assert_eq!(
        BitcoinError::ParseError("oops".to_string()).message(),
        "Parse error: oops"
    );
}
