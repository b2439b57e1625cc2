use edwards_bls12_accel::bind::{
    decode_header_word, finalize, init, weld, welded_count, head_pad, varint_size, WeldBinder, HEADER_TRAILING_BYTES,
    HEADER_UNTERMINATED, RECORD_BYTES,
};
use edwards_bls12_accel::record::limbs_to_biguint;
use edwards_bls12_accel::sdk::{Fq, MODULUS};
use edwards_bls12_accel::sequence_builder::{
    build_advice, build_record_blob_padded, log_record_for_test, neg_modulus_limbs,
    record_from_xyz, take_field_op_log, EdBlsOp, FieldOpLog, LoggedRecord,
};

fn sample_a() -> Fq {
    Fq::from_canonical([3, 1, 4, 0x100])
}

fn sample_b() -> Fq {
    Fq::from_canonical([2, 7, 1, 0x80])
}

fn sample_record() -> LoggedRecord {
    let (a, b) = (sample_a(), sample_b());
    let c = a.mul(&b);
    record_from_xyz(a.to_canonical(), b.to_canonical(), c.to_canonical())
}

fn encode_varint(len: usize) -> u64 {
    let mut bytes = [0u8; 8];
    let mut v = len;
    let mut i = 0;
    while v >= 0x80 {
        bytes[i] = (v as u8 & 0x7f) | 0x80;
        v >>= 7;
        i += 1;
    }
    bytes[i] = v as u8;
    u64::from_le_bytes(bytes)
}

fn word_at(blob: &[u8], byte: usize) -> u64 {
    u64::from_le_bytes(blob[byte..byte + 8].try_into().unwrap())
}

#[test]
fn header_varint_roundtrip() {
    // len = 128128 (1000 records + pad 125, varint 3 bytes)
    let len = 125usize + 128_000;
    let word = encode_varint(len);
    let (decoded, size) = decode_header_word(word).unwrap();
    assert_eq!(decoded, len);
    assert_eq!(size, 3);
    assert_eq!(128 - size, 125);
}

#[test]
fn header_decode_errors() {
    // every byte has its continuation bit set
    assert_eq!(decode_header_word(u64::MAX), Err(HEADER_UNTERMINATED));
    assert_eq!(decode_header_word(0x8080_8080_8080_8080), Err(HEADER_UNTERMINATED));
    // varint 0x05 followed by a stray non-zero byte
    assert_eq!(decode_header_word(0x0100 | 0x05), Err(HEADER_TRAILING_BYTES));
    assert_eq!(decode_header_word(0), Ok((0, 1)));
    assert_eq!(decode_header_word(0x7f), Ok((127, 1)));
    assert_eq!(decode_header_word(0x01_80), Ok((128, 2)));
}

#[test]
fn varint_size_and_head_pad_values() {
    assert_eq!(varint_size(0), 1);
    assert_eq!(varint_size(127), 1);
    assert_eq!(varint_size(128), 2);
    assert_eq!(varint_size(16_383), 2);
    assert_eq!(varint_size(16_384), 3);
    assert_eq!(varint_size(128_128), 3);
    assert_eq!(head_pad(255), 126);
    assert_eq!(head_pad(100), 127);
    assert_eq!(head_pad(128_128), 125);
    // a header decodes to the size varint_size predicts
    for len in [0usize, 1, 127, 128, 300, 16_384, 128_128, 1 << 40] {
        let (decoded, size) = decode_header_word(encode_varint(len)).unwrap();
        assert_eq!((decoded, size), (len, varint_size(len)));
    }
}

#[test]
fn neg_modulus_limbs_is_two_to_256_minus_q() {
    let p = neg_modulus_limbs();
    let sum = limbs_to_biguint(&p) + limbs_to_biguint(&MODULUS);
    assert_eq!(sum, num_bigint::BigUint::from(1u32) << 256u32);
}

#[test]
fn record_blob_layout_and_identity() {
    let q = limbs_to_biguint(&MODULUS);
    let (a, b) = (sample_a(), sample_b());
    let c = a.mul(&b);

    let rec = record_from_xyz(a.to_canonical(), b.to_canonical(), c.to_canonical());
    // rec = (x, y, z, w) with x*y == w*q + z exactly over the integers
    let (x, y, z, w) = rec;
    assert_eq!(x, a.to_canonical());
    assert_eq!(y, b.to_canonical());
    assert_eq!(z, c.to_canonical());
    let lhs = limbs_to_biguint(&x) * limbs_to_biguint(&y);
    let rhs = limbs_to_biguint(&w) * &q + limbs_to_biguint(&z);
    assert_eq!(lhs, rhs, "x*y == w*q + z");

    // Div normalization: block is (c, b, a) with c*b == w*q + a
    let quotient = a.div(&b);
    let drec = record_from_xyz(quotient.to_canonical(), b.to_canonical(), a.to_canonical());
    let (dx, dy, dz, dw) = drec;
    let dlhs = limbs_to_biguint(&dx) * limbs_to_biguint(&dy);
    let drhs = limbs_to_biguint(&dw) * &q + limbs_to_biguint(&dz);
    assert_eq!(dlhs, drhs, "c*b == w*q + a");

    // blob: 16-word blocks in record order after the head pad
    let blob = build_record_blob_padded(&[rec, drec]);
    let pad = head_pad(blob.len());
    assert_eq!(blob.len() - pad, 2 * RECORD_BYTES);
    for i in 0..4 {
        assert_eq!(word_at(&blob, pad + 8 * i), x[i]);
        assert_eq!(word_at(&blob, pad + 32 + 8 * i), y[i]);
        assert_eq!(word_at(&blob, pad + 64 + 8 * i), z[i]);
        assert_eq!(word_at(&blob, pad + 96 + 8 * i), w[i]);
        assert_eq!(word_at(&blob, pad + 128 + 8 * i), dx[i]);
        assert_eq!(word_at(&blob, pad + 224 + 8 * i), dw[i]);
    }
}

#[test]
fn field_op_log_returns_xyzw_tuples() {
    let a = Fq::from_canonical([5, 0, 0, 0]);
    let b = Fq::from_canonical([7, 0, 0, 0]);
    let c = a.mul(&b);
    let mut field_op_log = FieldOpLog::new();
    let _ = take_field_op_log(&mut field_op_log); // drain
    log_record_for_test(&mut field_op_log, a.to_canonical(), b.to_canonical(), c.to_canonical());
    let log = take_field_op_log(&mut field_op_log);
    assert_eq!(log.len(), 1);
    let (x, y, z, w) = log[0];
    assert_eq!((x, y, z), (a.to_canonical(), b.to_canonical(), c.to_canonical()));
    assert_eq!(w, [0, 0, 0, 0], "5*7=35 < q so quotient is 0");
    assert!(take_field_op_log(&mut field_op_log).is_empty());
}

#[test]
fn padded_blob_satisfies_guest_pad_rule() {
    let rec = sample_record();
    for n in [1usize, 2, 5, 1000] {
        let records = vec![rec; n];
        let blob = build_record_blob_padded(&records);
        let pad = head_pad(blob.len());
        assert!(blob.len() >= pad);
        assert_eq!((blob.len() - pad) % RECORD_BYTES, 0, "n={n}");
        assert_eq!((blob.len() - pad) / RECORD_BYTES, n, "n={n}");
        // pad bytes are zero; first block starts with x0
        assert!(blob[..pad].iter().all(|&v| v == 0));
        assert_eq!(&blob[pad..pad + 8], &rec.0[0].to_le_bytes());
    }
}

#[test]
fn empty_blob_is_just_the_pad() {
    let blob = build_record_blob_padded(&[]);
    assert_eq!(blob.len(), 127);
    assert_eq!(head_pad(blob.len()), 127);
    assert!(blob.iter().all(|&v| v == 0));
}

#[test]
fn build_advice_logs_normalized_records() {
    let (a, b) = (sample_a(), sample_b());
    let mut log = FieldOpLog::new();
    let mul = build_advice(EdBlsOp::MulQ, a, b, &mut log);
    let sq = build_advice(EdBlsOp::SquareQ, a, b, &mut log);
    let div = build_advice(EdBlsOp::DivQ, a, b, &mut log);
    assert_eq!(mul, a.mul(&b).to_canonical());
    assert_eq!(sq, a.square().to_canonical());
    assert_eq!(div, a.div(&b).to_canonical());
    let records = take_field_op_log(&mut log);
    assert_eq!(records.len(), 3);
    assert_eq!((records[0].0, records[0].1, records[0].2), (a.to_canonical(), b.to_canonical(), mul));
    assert_eq!((records[1].0, records[1].1, records[1].2), (a.to_canonical(), a.to_canonical(), sq));
    assert_eq!((records[2].0, records[2].1, records[2].2), (div, b.to_canonical(), a.to_canonical()));
    let q = limbs_to_biguint(&MODULUS);
    for (x, y, z, w) in records {
        assert_eq!(
            limbs_to_biguint(&x) * limbs_to_biguint(&y),
            limbs_to_biguint(&w) * &q + limbs_to_biguint(&z)
        );
    }
}

#[test]
fn weld_accepts_the_logged_run() {
    let (a, b) = (sample_a(), sample_b());
    let mut log = FieldOpLog::new();
    build_advice(EdBlsOp::MulQ, a, b, &mut log);
    build_advice(EdBlsOp::DivQ, a, b, &mut log);
    let records = take_field_op_log(&mut log);
    let blob = build_record_blob_padded(&records);

    let mut binder = WeldBinder::new();
    binder.init(&blob);
    for (x, y, z, _) in &records {
        binder.weld(x, y, z);
    }
    binder.finalize();
    assert!(!binder.is_spoiled());
    assert_eq!(binder.welded_count(), 2);
}

#[test]
fn weld_spoils_on_mismatch_missing_or_extra_ops() {
    let rec = sample_record();
    let blob = build_record_blob_padded(&[rec, rec]);

    // a wrong z word
    let mut binder = WeldBinder::new();
    binder.init(&blob);
    binder.weld(&rec.0, &rec.1, &rec.2);
    let mut bad_z = rec.2;
    bad_z[3] ^= 1;
    binder.weld(&rec.0, &rec.1, &bad_z);
    binder.finalize();
    assert!(binder.is_spoiled());

    // one op fewer than blocks
    let mut binder = WeldBinder::new();
    binder.init(&blob);
    binder.weld(&rec.0, &rec.1, &rec.2);
    assert!(!binder.is_spoiled());
    binder.finalize();
    assert!(binder.is_spoiled());

    // one op more than blocks
    let mut binder = WeldBinder::new();
    binder.init(&blob);
    for _ in 0..3 {
        binder.weld(&rec.0, &rec.1, &rec.2);
    }
    assert!(binder.is_spoiled());
    assert_eq!(binder.welded_count(), 3);
}

#[test]
fn weld_spoils_on_bad_pad_and_ignores_calls_before_init() {
    let rec = sample_record();
    let mut blob = build_record_blob_padded(&[rec]);
    blob.push(0);
    let mut binder = WeldBinder::new();
    binder.init(&blob);
    assert!(binder.is_spoiled());

    let mut idle = WeldBinder::new();
    idle.weld(&rec.0, &rec.1, &rec.2);
    idle.finalize();
    assert!(!idle.is_spoiled());
    assert_eq!(idle.welded_count(), 0);
}

#[test]
fn free_binding_functions_are_no_ops() {
    let rec = sample_record();
    init(&build_record_blob_padded(&[rec]));
    weld(&rec.0, &rec.1, &rec.2);
    finalize();
    assert_eq!(welded_count(), 0);
}
