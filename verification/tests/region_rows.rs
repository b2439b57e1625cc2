use edwards_bls12_accel::bind::{
    parse_region_rows, BLOCKS_EXCEED_REGION, HEADER_UNTERMINATED, HEAD_PAD_NOT_ZERO,
    PAD_RULE_VIOLATED,
};
use edwards_bls12_accel::record::row_to_record;
use edwards_bls12_accel::sdk::Fq;
use edwards_bls12_accel::sequence_builder::{build_record_blob_padded, record_from_xyz};

fn region_words(blob: &[u8]) -> Vec<u64> {
    let mut bytes = Vec::new();
    let mut v = blob.len();
    while v >= 0x80 {
        bytes.push((v as u8 & 0x7f) | 0x80);
        v >>= 7;
    }
    bytes.push(v as u8);
    bytes.extend_from_slice(blob);
    while bytes.len() % 8 != 0 {
        bytes.push(0);
    }
    bytes
        .chunks(8)
        .map(|c| u64::from_le_bytes(c.try_into().unwrap()))
        .collect()
}

#[test]
fn region_rows_hold_the_records() {
    let a = Fq::from_canonical([3, 1, 4, 0x100]);
    let b = Fq::from_canonical([2, 7, 1, 0x80]);
    let c = a.mul(&b);
    let rec = record_from_xyz(a.to_canonical(), b.to_canonical(), c.to_canonical());
    let blob = build_record_blob_padded(&[rec, rec, rec]);
    let words = region_words(&blob);
    let (n, rows) = parse_region_rows(&words).unwrap();
    assert_eq!(n, 3);
    assert_eq!(rows.len(), 4);
    for row in &rows[1..] {
        let r = row_to_record(row);
        assert_eq!((r.x, r.y, r.z, r.w), (rec.0, rec.1, rec.2, rec.3));
    }
    // the header row holds only the length word
    assert!(rows[0][1..].iter().all(|&w| w == 0));
}

#[test]
fn region_rows_errors() {
    let blob = build_record_blob_padded(&[]);
    let words = region_words(&blob);
    assert_eq!(parse_region_rows(&words).unwrap().0, 0);

    let mut bad = words.clone();
    bad[0] = u64::MAX;
    assert_eq!(parse_region_rows(&bad), Err(HEADER_UNTERMINATED));

    // a length that breaks the pad rule
    let mut off = vec![0u8; 130];
    off[0] = 0;
    assert_eq!(parse_region_rows(&region_words(&off)), Err(PAD_RULE_VIOLATED));

    let mut dirty = words.clone();
    dirty[3] = 1;
    assert_eq!(parse_region_rows(&dirty), Err(HEAD_PAD_NOT_ZERO));

    // a header counting one more block than the words hold
    let a = Fq::from_canonical([5, 0, 0, 0]);
    let rec = record_from_xyz(a.to_canonical(), a.to_canonical(), a.square().to_canonical());
    let full = region_words(&build_record_blob_padded(&[rec]));
    assert_eq!(parse_region_rows(&full[..31]), Err(BLOCKS_EXCEED_REGION));
}
