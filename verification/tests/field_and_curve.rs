use ark_ec::twisted_edwards::TECurveConfig;
use ark_ec::{AdditiveGroup, CurveGroup, PrimeGroup};
use ark_ed_on_bls12_377::Fq as ArkFq;
use ark_ff::{Field, PrimeField, UniformRand, Zero};
use edwards_bls12_accel::sdk::{coeff_d, is_fq_non_canonical, EdwardsPoint, Fq, MODULUS};

type ArkP = ark_ed_on_bls12_377::EdwardsProjective;

fn assert_point_eq(ours: &EdwardsPoint, theirs: &ArkP, ctx: &str) {
    let ta = theirs.into_affine();
    assert_eq!(
        ours.to_affine(),
        (ta.x.into_bigint().0, ta.y.into_bigint().0),
        "{ctx}"
    );
}

fn q_minus_1() -> Fq {
    let mut m = MODULUS;
    m[0] -= 1;
    Fq::from_canonical(m)
}

#[test]
fn modulus_matches_arkworks() {
    assert_eq!(MODULUS, ArkFq::MODULUS.0, "vendored modulus limb mismatch");
}

#[test]
fn mul_matches_arkworks_1000_random() {
    let mut rng = ark_std::test_rng();
    for _ in 0..1000 {
        let (a, b) = (ArkFq::rand(&mut rng), ArkFq::rand(&mut rng));
        let ours = Fq::from_canonical(a.into_bigint().0).mul(&Fq::from_canonical(b.into_bigint().0));
        assert_eq!(ours.to_canonical(), (a * b).into_bigint().0);
    }
}

#[test]
fn square_matches_arkworks_1000_random() {
    let mut rng = ark_std::test_rng();
    for _ in 0..1000 {
        let a = ArkFq::rand(&mut rng);
        let ours = Fq::from_canonical(a.into_bigint().0).square();
        assert_eq!(ours.to_canonical(), a.square().into_bigint().0);
    }
}

#[test]
fn add_sub_match_arkworks_1000_random() {
    let mut rng = ark_std::test_rng();
    for _ in 0..1000 {
        let (a, b) = (ArkFq::rand(&mut rng), ArkFq::rand(&mut rng));
        let (fa, fb) = (
            Fq::from_canonical(a.into_bigint().0),
            Fq::from_canonical(b.into_bigint().0),
        );
        assert_eq!(fa.add(&fb).to_canonical(), (a + b).into_bigint().0);
        assert_eq!(fa.sub(&fb).to_canonical(), (a - b).into_bigint().0);
    }
}

#[test]
fn edge_cases() {
    let q_minus_1 = q_minus_1();
    // (q-1)^2 == 1  (since q-1 == -1 mod q)
    assert_eq!(q_minus_1.square().to_canonical(), [1, 0, 0, 0]);
    // x * 0 == 0; x * 1 == x
    assert_eq!(q_minus_1.mul(&Fq::zero()), Fq::zero());
    assert_eq!(q_minus_1.mul(&Fq::one()), q_minus_1);
    // 0 - 1 == q - 1
    assert_eq!(Fq::zero().sub(&Fq::one()), q_minus_1);
    // (q-1) + 1 == 0
    assert_eq!(q_minus_1.add(&Fq::one()), Fq::zero());
    // arkworks zero really is our zero
    assert!(Fq::from_canonical(ArkFq::zero().into_bigint().0).is_zero());
}

#[test]
fn div_inverse_match_arkworks() {
    let mut rng = ark_std::test_rng();
    for _ in 0..500 {
        let (a, b) = (ArkFq::rand(&mut rng), ArkFq::rand(&mut rng));
        let (fa, fb) = (
            Fq::from_canonical(a.into_bigint().0),
            Fq::from_canonical(b.into_bigint().0),
        );
        assert_eq!(
            fa.div(&fb).to_canonical(),
            (a * b.inverse().unwrap()).into_bigint().0
        );
        assert_eq!(
            fb.inverse().unwrap().to_canonical(),
            b.inverse().unwrap().into_bigint().0
        );
    }
    assert!(Fq::zero().inverse().is_none());
}

#[test]
fn curve_constants_match_arkworks() {
    type Cfg = ark_ed_on_bls12_377::EdwardsConfig;
    // a = -1
    let minus_one = ArkFq::zero() - ArkFq::from(1u64);
    assert_eq!(<Cfg as TECurveConfig>::COEFF_A, minus_one);
    // d matches our vendored constant
    assert_eq!(
        <Cfg as TECurveConfig>::COEFF_D.into_bigint().0,
        coeff_d().to_canonical()
    );
    // generator matches
    assert_point_eq(&EdwardsPoint::generator(), &ArkP::generator(), "generator");
}

#[test]
fn point_add_double_match_arkworks() {
    let g_ours = EdwardsPoint::generator();
    let g_ark = ArkP::generator();

    // doubling chain: 2G, 4G, 8G, ... 2^20 G
    let (mut p_ours, mut p_ark) = (g_ours, g_ark);
    for i in 0..20 {
        p_ours = p_ours.double();
        p_ark.double_in_place();
        assert_point_eq(&p_ours, &p_ark, &format!("double chain step {i}"));
    }

    // mixed add/double chain: p = 2p + G interleaved
    let (mut p_ours, mut p_ark) = (g_ours, g_ark);
    for i in 0..20 {
        p_ours = p_ours.double().add(&g_ours);
        p_ark = p_ark + p_ark + g_ark;
        assert_point_eq(&p_ours, &p_ark, &format!("add chain step {i}"));
    }
}

#[test]
fn point_edge_cases() {
    let g = EdwardsPoint::generator();
    // P + identity == P
    assert_point_eq(&g.add(&EdwardsPoint::identity()), &ArkP::generator(), "P + O");
    // P + (-P) == identity == (0, 1)
    let sum = g.add(&g.neg());
    assert_eq!(sum.to_affine(), ([0u64; 4], [1u64, 0, 0, 0]), "P + (-P)");
    // double(identity) == identity
    assert_eq!(
        EdwardsPoint::identity().double().to_affine(),
        ([0u64; 4], [1u64, 0, 0, 0]),
        "2O"
    );
}

#[test]
fn scalar_mul_matches_arkworks() {
    let mut rng = ark_std::test_rng();
    let g = EdwardsPoint::generator();
    for _ in 0..50 {
        let s = ark_ed_on_bls12_377::Fr::rand(&mut rng);
        let ours = g.scalar_mul(&s.into_bigint().0);
        let theirs = (ArkP::generator() * s).into_affine();
        assert_eq!(
            ours.to_affine(),
            (theirs.x.into_bigint().0, theirs.y.into_bigint().0)
        );
    }
    // edge cases: 0*G == identity, 1*G == G
    assert_eq!(
        g.scalar_mul(&[0, 0, 0, 0]).to_affine(),
        ([0u64; 4], [1u64, 0, 0, 0])
    );
    assert_point_eq(&g.scalar_mul(&[1, 0, 0, 0]), &ArkP::generator(), "1*G");
}

#[test]
fn fq_small_values_and_from_u64() {
    let five = Fq::from_u64(5);
    let seven = Fq::from_u64(7);
    assert_eq!(five.to_canonical(), [5, 0, 0, 0]);
    assert_eq!(five.mul(&seven).to_canonical(), [35, 0, 0, 0]);
    assert_eq!(five.add(&seven).to_canonical(), [12, 0, 0, 0]);
    assert_eq!(seven.sub(&five).to_canonical(), [2, 0, 0, 0]);
    assert_eq!(seven.square().to_canonical(), [49, 0, 0, 0]);
    assert_eq!(Fq::from_u64(35).div(&seven), five);
    assert!(!five.is_zero());
    assert!(Fq::from_u64(0).is_zero());
}

#[test]
fn fq_neg_is_involutive_and_additive_inverse() {
    let mut rng = ark_std::test_rng();
    assert_eq!(Fq::zero().neg(), Fq::zero());
    assert_eq!(Fq::one().neg(), q_minus_1());
    for _ in 0..100 {
        let a = Fq::from_canonical(ArkFq::rand(&mut rng).into_bigint().0);
        let b = Fq::from_canonical(ArkFq::rand(&mut rng).into_bigint().0);
        assert_eq!(a.neg().neg(), a);
        assert!(a.add(&a.neg()).is_zero());
        // (a - b) + b == a
        assert_eq!(a.sub(&b).add(&b), a);
    }
}

#[test]
fn fq_inverse_roundtrip() {
    let mut rng = ark_std::test_rng();
    for _ in 0..100 {
        let a = Fq::from_canonical(ArkFq::rand(&mut rng).into_bigint().0);
        if a.is_zero() {
            continue;
        }
        let inv = a.inverse().unwrap();
        assert_eq!(a.mul(&inv), Fq::one());
    }
    assert_eq!(q_minus_1().inverse().unwrap(), q_minus_1());
}

#[test]
fn point_neg_twice_is_identity_map() {
    let g = EdwardsPoint::generator().double();
    assert_eq!(g.neg().neg().to_affine(), g.to_affine());
    // -(x, y) == (-x, y)
    let (gx, gy) = g.to_affine();
    let (nx, ny) = g.neg().to_affine();
    assert_eq!(ny, gy);
    assert_eq!(Fq::from_canonical(nx), Fq::from_canonical(gx).neg());
}

#[test]
fn scalar_mul_small_multiples() {
    let g = EdwardsPoint::generator();
    assert_eq!(g.scalar_mul(&[2, 0, 0, 0]).to_affine(), g.double().to_affine());
    assert_eq!(
        g.scalar_mul(&[3, 0, 0, 0]).to_affine(),
        g.double().add(&g).to_affine()
    );
    assert_eq!(
        g.scalar_mul(&[4, 0, 0, 0]).to_affine(),
        g.double().double().to_affine()
    );
}

#[test]
fn double_agrees_with_adding_a_point_to_itself() {
    let mut p = EdwardsPoint::generator();
    for _ in 0..10 {
        assert_eq!(p.double().to_affine(), p.add(&p).to_affine());
        p = p.double().add(&EdwardsPoint::generator());
    }
}

#[test]
fn adding_identity_and_negation_on_a_projective_point() {
    // a point with Z != 1: 3G in extended coordinates
    let p = EdwardsPoint::generator().double().add(&EdwardsPoint::generator());
    assert_eq!(p.add(&EdwardsPoint::identity()).to_affine(), p.to_affine());
    assert_eq!(p.add(&p.neg()).to_affine(), ([0u64; 4], [1u64, 0, 0, 0]));
}

#[test]
fn non_canonical_limbs_are_those_at_or_above_the_modulus() {
    let mut below = MODULUS;
    below[0] -= 1;
    let mut above = MODULUS;
    above[3] += 1;
    assert!(is_fq_non_canonical(&MODULUS));
    assert!(is_fq_non_canonical(&above));
    assert!(is_fq_non_canonical(&[u64::MAX; 4]));
    assert!(!is_fq_non_canonical(&below));
    assert!(!is_fq_non_canonical(&[0; 4]));
    assert!(!is_fq_non_canonical(&[u64::MAX, u64::MAX, u64::MAX, 0]));
}

fn on_curve_affine(p: &EdwardsPoint) -> bool {
    let (x, y) = p.to_affine();
    let (x, y) = (Fq::from_canonical(x), Fq::from_canonical(y));
    let (xx, yy) = (x.square(), y.square());
    // -x^2 + y^2 == 1 + d x^2 y^2
    yy.sub(&xx) == Fq::one().add(&coeff_d().mul(&xx).mul(&yy))
}

#[test]
fn sums_doubles_and_multiples_stay_on_the_curve() {
    let g = EdwardsPoint::generator();
    let mut p = g;
    for _ in 0..10 {
        assert!(on_curve_affine(&p));
        assert!(on_curve_affine(&p.double()));
        assert!(on_curve_affine(&p.add(&g)));
        assert!(on_curve_affine(&g.add(&p)));
        assert_eq!(p.add(&g).to_affine(), g.add(&p).to_affine());
        p = p.double().add(&g);
    }
    assert!(on_curve_affine(&g.scalar_mul(&[12345, 6789, 42, 7])));
}
