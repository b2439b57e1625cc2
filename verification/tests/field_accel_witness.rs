use edwards_bls12_accel::record::{
    column_carries_64, limbs_to_biguint, FieldAccelParams, FieldAccelWitness, FieldOpRecord,
    CARRY_OFFSET, DIGITS_PER_CARRY, NUM_CARRIES, NUM_DIGIT_COLUMNS, NUM_PRODUCT_COLUMNS,
};
use num_bigint::BigUint;

// BLS12-377 Fr (the Aleo curve's base field), used as a test modulus.
const TEST_MODULUS: [u64; 4] = [
    0x0a11800000000001,
    0x59aa76fed0000001,
    0x60b44d1e5c37b001,
    0x12ab655e9a2ca556,
];

fn params() -> FieldAccelParams {
    FieldAccelParams {
        modulus_limbs: TEST_MODULUS,
    }
}

fn biguint_to_limbs(v: &BigUint) -> [u64; 4] {
    let mut limbs = [0u64; 4];
    for (i, chunk) in v.to_bytes_le().chunks(8).enumerate() {
        let mut bytes = [0u8; 8];
        bytes[..chunk.len()].copy_from_slice(chunk);
        limbs[i] = u64::from_le_bytes(bytes);
    }
    limbs
}

fn mulmod_record(a: [u64; 4], b: [u64; 4]) -> FieldOpRecord {
    let q = params().modulus();
    let z = (limbs_to_biguint(&a) * limbs_to_biguint(&b)) % &q;
    FieldOpRecord::new(a, b, biguint_to_limbs(&z), &params())
}

fn xorshift(s: &mut u64) -> u64 {
    let mut x = *s;
    x ^= x << 13;
    x ^= x >> 7;
    x ^= x << 17;
    *s = x;
    x
}

fn random_element(s: &mut u64) -> [u64; 4] {
    // < 2^250 < q
    let mut limbs = [0u64; 4];
    for limb in limbs.iter_mut() {
        *limb = xorshift(s);
    }
    limbs[3] &= (1u64 << 58) - 1;
    limbs
}

#[test]
fn word_column_carries_balance() {
    let mut s = 7u64;
    for _ in 0..100 {
        let (a, b) = (random_element(&mut s), random_element(&mut s));
        let record = mulmod_record(a, b);
        // carry magnitudes stay below 2^68
        let carries = column_carries_64(&record, &params());
        assert!(carries.iter().all(|c| c.unsigned_abs() < (1u128 << 68)));
    }
}

#[test]
fn witness_pads_to_power_of_two_with_valid_zero_records() {
    let mut s = 99u64;
    let records: Vec<_> = (0..5)
        .map(|_| mulmod_record(random_element(&mut s), random_element(&mut s)))
        .collect();
    let w = FieldAccelWitness::from_records(&records, &params());
    assert_eq!(w.padded_len(), 8);
    assert_eq!(w.num_records, 5);
    // padding rows: zero words, offset carries equal to CARRY_OFFSET,
    // digits recompose to the offset
    for col in w.words.iter() {
        assert_eq!(&col[5..], &[0, 0, 0]);
    }
    let zero_offset = u128::try_from(CARRY_OFFSET).unwrap();
    for j in 0..NUM_CARRIES {
        assert_eq!(&w.carries[j][5..], &[zero_offset; 3]);
        for row in 5..8 {
            let recomposed: u128 = (0..DIGITS_PER_CARRY)
                .map(|d| (w.digits[j * DIGITS_PER_CARRY + d][row] as u128) << (2 * d))
                .sum();
            assert_eq!(recomposed, zero_offset);
        }
    }
}

#[test]
fn record_new_derives_the_exact_quotient() {
    let mut s = 3u64;
    let q = params().modulus();
    for _ in 0..50 {
        let (a, b) = (random_element(&mut s), random_element(&mut s));
        let r = mulmod_record(a, b);
        assert_eq!((r.x, r.y), (a, b));
        let lhs = limbs_to_biguint(&r.x) * limbs_to_biguint(&r.y);
        let rhs = limbs_to_biguint(&r.w) * &q + limbs_to_biguint(&r.z);
        assert_eq!(lhs, rhs);
    }
    // 5 * 7 = 35 < q: quotient zero
    let small = FieldOpRecord::new([5, 0, 0, 0], [7, 0, 0, 0], [35, 0, 0, 0], &params());
    assert_eq!(small.w, [0, 0, 0, 0]);
}

#[test]
fn limbs_to_biguint_reads_little_endian_limbs() {
    assert_eq!(limbs_to_biguint(&[0, 0, 0, 0]), BigUint::from(0u32));
    assert_eq!(limbs_to_biguint(&[7, 0, 0, 0]), BigUint::from(7u32));
    assert_eq!(limbs_to_biguint(&[0, 1, 0, 0]), BigUint::from(1u128 << 64));
    let v = limbs_to_biguint(&TEST_MODULUS);
    assert_eq!(biguint_to_limbs(&v), TEST_MODULUS);
    assert_eq!(params().modulus(), v);
}

#[test]
fn zero_record_has_zero_carries() {
    let zero = FieldOpRecord::new([0; 4], [0; 4], [0; 4], &params());
    assert_eq!(zero.w, [0; 4]);
    assert_eq!(column_carries_64(&zero, &params()), [0i128; 6]);
}

#[test]
fn carries_rebuild_every_column_sum() {
    // S_0 = c_0 * 2^64; S_k + c_{k-1} = c_k * 2^64; S_6 + c_5 = 0, checked
    // with exact integer arithmetic on one record.
    let mut s = 11u64;
    let r = mulmod_record(random_element(&mut s), random_element(&mut s));
    let carries = column_carries_64(&r, &params());
    let q = TEST_MODULUS;
    let mut carry_in: i128 = 0;
    for k in 0..NUM_PRODUCT_COLUMNS {
        // work in i256-free form: split each column into (hi, lo) with BigInt-free
        // arithmetic through num-bigint's signed-free path
        let mut pos = BigUint::from(0u32);
        let mut neg = BigUint::from(0u32);
        for i in 0..4usize {
            if k >= i && k - i < 4 {
                pos += BigUint::from(r.x[i]) * BigUint::from(r.y[k - i]);
                neg += BigUint::from(r.w[i]) * BigUint::from(q[k - i]);
            }
        }
        if k < 4 {
            neg += BigUint::from(r.z[k]);
        }
        if carry_in >= 0 {
            pos += BigUint::from(carry_in as u128);
        } else {
            neg += BigUint::from(carry_in.unsigned_abs());
        }
        let carry_out: i128 = if k < NUM_CARRIES { carries[k] } else { 0 };
        let scaled = BigUint::from(carry_out.unsigned_abs()) << 64u32;
        if carry_out >= 0 {
            assert_eq!(pos, neg + scaled, "column {k}");
        } else {
            assert_eq!(pos + scaled, neg, "column {k}");
        }
        carry_in = carry_out;
    }
}

#[test]
fn witness_rows_hold_record_words_and_offset_carries() {
    let mut s = 5u64;
    let records: Vec<_> = (0..3)
        .map(|_| mulmod_record(random_element(&mut s), random_element(&mut s)))
        .collect();
    let w = FieldAccelWitness::from_records(&records, &params());
    assert_eq!(w.padded_len(), 4);
    assert_eq!(w.digits.len(), NUM_DIGIT_COLUMNS);
    for (row, r) in records.iter().enumerate() {
        for i in 0..4 {
            assert_eq!(w.words[i][row], r.x[i]);
            assert_eq!(w.words[4 + i][row], r.y[i]);
            assert_eq!(w.words[8 + i][row], r.z[i]);
            assert_eq!(w.words[12 + i][row], r.w[i]);
        }
        let carries = column_carries_64(r, &params());
        for j in 0..NUM_CARRIES {
            let offset = w.carries[j][row];
            assert_eq!(offset as i128, carries[j] + CARRY_OFFSET);
            for d in 0..DIGITS_PER_CARRY {
                assert_eq!(
                    w.digits[j * DIGITS_PER_CARRY + d][row] as u128,
                    (offset >> (2 * d)) & 3
                );
            }
        }
    }
}

#[test]
fn witness_of_no_records_and_of_exact_powers() {
    let w = FieldAccelWitness::from_records(&[], &params());
    assert_eq!(w.num_records, 0);
    assert_eq!(w.padded_len(), 1);
    let mut s = 21u64;
    for (n, expected) in [(1usize, 1usize), (2, 2), (4, 4), (9, 16)] {
        let records: Vec<_> = (0..n)
            .map(|_| mulmod_record(random_element(&mut s), random_element(&mut s)))
            .collect();
        let w = FieldAccelWitness::from_records(&records, &params());
        assert_eq!(w.padded_len(), expected, "n={n}");
    }
}
