use edwards_bls12_accel::bind::WeldBinder;
use edwards_bls12_accel::guest::accept_advice;
use edwards_bls12_accel::sdk::{Fq, MODULUS};
use edwards_bls12_accel::sequence_builder::{
    build_advice, build_record_blob_padded, take_field_op_log, EdBlsOp, FieldOpLog,
};

fn operands() -> (Fq, Fq) {
    (
        Fq::from_canonical([3, 1, 4, 0x100]),
        Fq::from_canonical([2, 7, 1, 0x80]),
    )
}

fn host_run(ops: &[EdBlsOp], a: Fq, b: Fq) -> (Vec<[u64; 4]>, Vec<u8>) {
    let mut log = FieldOpLog::new();
    let results: Vec<[u64; 4]> = ops.iter().map(|&op| build_advice(op, a, b, &mut log)).collect();
    let blob = build_record_blob_padded(&take_field_op_log(&mut log));
    (results, blob)
}

#[test]
fn honest_guest_run_is_accepted() {
    let (a, b) = operands();
    let ops = [EdBlsOp::MulQ, EdBlsOp::SquareQ, EdBlsOp::DivQ];
    let (results, blob) = host_run(&ops, a, b);
    let mut binder = WeldBinder::new();
    binder.init(&blob);
    for (op, advice) in ops.iter().zip(results.iter()) {
        let c = accept_advice(*op, &a, &b, *advice, &mut binder).unwrap();
        assert_eq!(c.to_canonical(), *advice);
    }
    binder.finalize();
    assert!(!binder.is_spoiled());
    assert_eq!(binder.welded_count(), 3);
}

#[test]
fn tampered_advice_spoils_the_guest_run() {
    let (a, b) = operands();
    let (results, blob) = host_run(&[EdBlsOp::MulQ], a, b);
    let mut wrong = results[0];
    wrong[0] ^= 1;
    let mut binder = WeldBinder::new();
    binder.init(&blob);
    let c = accept_advice(EdBlsOp::MulQ, &a, &b, wrong, &mut binder);
    assert_eq!(c.map(|c| c.to_canonical()), Some(wrong));
    assert!(binder.is_spoiled());
}

#[test]
fn non_canonical_advice_and_zero_divisor_spoil() {
    let (a, b) = operands();
    let mut binder = WeldBinder::new();
    assert!(accept_advice(EdBlsOp::MulQ, &a, &b, MODULUS, &mut binder).is_none());
    assert!(binder.is_spoiled());

    let mut binder = WeldBinder::new();
    let r = accept_advice(EdBlsOp::DivQ, &a, &Fq::zero(), [0; 4], &mut binder);
    assert!(r.is_some());
    assert!(binder.is_spoiled());

    // before init nothing is welded, and good advice does not spoil
    let mut binder = WeldBinder::new();
    let c = a.mul(&b).to_canonical();
    assert!(accept_advice(EdBlsOp::MulQ, &a, &b, c, &mut binder).is_some());
    assert!(!binder.is_spoiled());
    assert_eq!(binder.welded_count(), 0);
}
