//! Edwards-BLS12 base-field type and twisted-Edwards point operations.
//!
//! `Fq` holds the canonical (non-Montgomery) little-endian limb representation
//! of an element of the BLS12-377 scalar field (the Aleo curve's base field).
//! mul/square/div are computed by arkworks; add/sub are plain limb arithmetic.
use crate::limbs::{lemma_val4_bound, lemma_carry_step, lemma_prefix_bound, lemma_prefix_update, lemma_val4_explicit, lemma_weights, limb_weight, prefix_val, val4};
use ark_ed_on_bls12_377::Fq as ArkFq;
use ark_ff::{BigInt, Field, PrimeField};
use vstd::prelude::*;
use vstd::arithmetic::power2::{lemma2_to64, lemma2_to64_rest, lemma_pow2_adds, lemma_pow2_pos, pow2};

verus! {

/// BLS12-377 Fr modulus limbs (little-endian): the Aleo curve's base field.
pub const MODULUS: [u64; 4] = [
    0x0a11800000000001,
    0x59aa76fed0000001,
    0x60b44d1e5c37b001,
    0x12ab655e9a2ca556,
];

/// The modulus q as a number.
pub open spec fn q_nat() -> nat {
    8444461749428370424248824938781546531375899335154063827935233455917409239041nat
}

/// The limbs of `MODULUS` hold q.
pub proof fn lemma_modulus_value()
    ensures
        val4(MODULUS) == q_nat(),
        q_nat() < limb_weight(4),
        q_nat() * 8 < limb_weight(4),
{
    lemma_val4_explicit(MODULUS);
    lemma_weights();
}

/// Field addition of canonical values.
pub open spec fn fq_add(a: nat, b: nat) -> nat {
    (a + b) % q_nat()
}

/// Field subtraction of canonical values.
pub open spec fn fq_sub(a: nat, b: nat) -> nat {
    ((a + q_nat()) - b) as nat % q_nat()
}

/// Field multiplication.
pub open spec fn fq_mul(a: nat, b: nat) -> nat {
    (a * b) % q_nat()
}

/// Field negation of a canonical value.
pub open spec fn fq_neg(a: nat) -> nat {
    (q_nat() - a) as nat % q_nat()
}

/// An element of the Edwards-BLS12 base field, in canonical limb form.
#[derive(Clone, Copy, Debug, PartialEq, Eq)]
pub struct Fq {
    pub(crate) e: [u64; 4],
}

impl View for Fq {
    type V = nat;

    closed spec fn view(&self) -> nat {
        val4(self.e)
    }
}

impl Fq {
    /// Every `Fq` is canonical: its limbs hold a value below q.
    #[verifier::type_invariant]
    closed spec fn canonical(self) -> bool {
        val4(self.e) < q_nat()
    }
}

/// `true` iff `x >= q` (non-canonical).
pub fn is_fq_non_canonical(x: &[u64; 4]) -> (r: bool)
    ensures
        r == (val4(*x) >= q_nat()),
{
    proof {
        lemma_modulus_value();
    }
    let mut k: usize = 4;
    while k > 0
        invariant
            k <= 4,
            (val4(*x) >= q_nat()) == (prefix_val(x@, k as nat) >= prefix_val(MODULUS@, k as nat)),
        decreases k,
    {
        let i = k - 1;
        proof {
            lemma_prefix_bound(x@, i as nat);
            lemma_prefix_bound(MODULUS@, i as nat);
            let w = limb_weight(i as nat) as int;
            let a = x[i as int] as int;
            let m = MODULUS[i as int] as int;
            if a < m {
                assert(a * w + w <= m * w) by (nonlinear_arith)
                    requires
                        a + 1 <= m,
                        w >= 0,
                ;
            }
            if a > m {
                assert(m * w + w <= a * w) by (nonlinear_arith)
                    requires
                        m + 1 <= a,
                        w >= 0,
                ;
            }
        }
        if x[i] < MODULUS[i] {
            return false;
        }
        if x[i] > MODULUS[i] {
            return true;
        }
        k = i;
    }
    true  // x == q
}

/// Limb add with carry chain; returns (sum, carry).
fn adc(a: &[u64; 4], b: &[u64; 4]) -> (r: ([u64; 4], bool))
    ensures
        val4(r.0) + (if r.1 {
            limb_weight(4)
        } else {
            0
        }) == val4(*a) + val4(*b),
{
    let mut out = [0u64, 0, 0, 0];
    let mut carry = false;
    for i in 0..4usize
        invariant
            prefix_val(out@, i as nat) + (if carry {
                limb_weight(i as nat)
            } else {
                0
            }) == prefix_val(a@, i as nat) + prefix_val(b@, i as nat),
    {
        let s: u128 = a[i] as u128 + b[i] as u128 + if carry {
            1u128
        } else {
            0u128
        };
        let v = (s % 0x1_0000_0000_0000_0000u128) as u64;
        let c = s >= 0x1_0000_0000_0000_0000u128;
        proof {
            let w = limb_weight(i as nat) as int;
            let cin: int = if carry { 1 } else { 0 };
            let cout: int = if c { 1 } else { 0 };
            lemma_carry_step(v as int, cout, a[i as int] as int + b[i as int] as int + cin, w);
            lemma_prefix_update(out@, i as int, v, (i + 1) as nat);
            lemma_prefix_update(out@, i as int, v, i as nat);
            assert(limb_weight((i + 1) as nat) == 0x1_0000_0000_0000_0000 * w);
            assert((a[i as int] as int + b[i as int] as int + cin) * w == a[i as int] as int * w
                + b[i as int] as int * w + cin * w) by (nonlinear_arith);
        }
        out[i] = v;
        carry = c;
    }
    (out, carry)
}

/// Limb sub with borrow chain; returns (diff, borrow).
fn sbb(a: &[u64; 4], b: &[u64; 4]) -> (r: ([u64; 4], bool))
    ensures
        val4(r.0) + val4(*b) == val4(*a) + (if r.1 {
            limb_weight(4)
        } else {
            0
        }),
{
    let mut out = [0u64, 0, 0, 0];
    let mut borrow = false;
    for i in 0..4usize
        invariant
            prefix_val(out@, i as nat) + prefix_val(b@, i as nat) == prefix_val(a@, i as nat) + (
            if borrow {
                limb_weight(i as nat)
            } else {
                0
            }),
    {
        let ai = a[i] as u128;
        let sub = b[i] as u128 + if borrow {
            1u128
        } else {
            0u128
        };
        let (v, bo): (u64, bool) = if ai >= sub {
            ((ai - sub) as u64, false)
        } else {
            ((ai + 0x1_0000_0000_0000_0000u128 - sub) as u64, true)
        };
        proof {
            let w = limb_weight(i as nat) as int;
            let bin: int = if borrow { 1 } else { 0 };
            let bout: int = if bo { 1 } else { 0 };
            lemma_carry_step(v as int, -bout, a[i as int] as int - b[i as int] as int - bin, w);
            lemma_prefix_update(out@, i as int, v, (i + 1) as nat);
            lemma_prefix_update(out@, i as int, v, i as nat);
            assert(limb_weight((i + 1) as nat) == 0x1_0000_0000_0000_0000 * w);
            assert(-bout * (0x1_0000_0000_0000_0000 * w) == -(bout * (0x1_0000_0000_0000_0000 * w))) by (nonlinear_arith);
            assert((a[i as int] as int - b[i as int] as int - bin) * w == a[i as int] as int * w
                - b[i as int] as int * w - bin * w) by (nonlinear_arith);
        }
        out[i] = v;
        borrow = bo;
    }
    (out, borrow)
}


/// Multiplication in arkworks' `ark_ed_on_bls12_377::Fq` (BLS12-377's
/// scalar field, modulus q): both operands enter through `Fp::new` as
/// canonical integers, the product leaves through `into_bigint`, which
/// returns the canonical representative in 0..q.
#[verifier::external_body]
fn ark_fq_mul(a: [u64; 4], b: [u64; 4]) -> (r: [u64; 4])
    requires
        val4(a) < q_nat(),
        val4(b) < q_nat(),
    ensures
        val4(r) == (val4(a) * val4(b)) % q_nat(),
{
    (ArkFq::new(BigInt(a)) * ArkFq::new(BigInt(b))).into_bigint().0
}

/// `Field::square` of arkworks' `ark_ed_on_bls12_377::Fq`: `self * self`,
/// returned as the canonical representative in 0..q.
#[verifier::external_body]
fn ark_fq_square(a: [u64; 4]) -> (r: [u64; 4])
    requires
        val4(a) < q_nat(),
    ensures
        val4(r) == (val4(a) * val4(a)) % q_nat(),
{
    ArkFq::new(BigInt(a)).square().into_bigint().0
}

/// `Field::inverse` of arkworks' `ark_ed_on_bls12_377::Fq`: `None` for zero,
/// otherwise the multiplicative inverse as the canonical representative in
/// 0..q.
#[verifier::external_body]
fn ark_fq_inverse(a: [u64; 4]) -> (r: Option<[u64; 4]>)
    requires
        val4(a) < q_nat(),
    ensures
        r is None <==> val4(a) == 0,
        r matches Some(i) ==> val4(i) < q_nat() && (val4(a) * val4(i)) % q_nat() == 1,
{
    ArkFq::new(BigInt(a)).inverse().map(|i| i.into_bigint().0)
}

impl Fq {
    /// The additive identity.
    pub fn zero() -> (r: Fq)
        ensures
            r@ == 0,
            r.limbs() == [0u64, 0, 0, 0],
    {
        proof {
            lemma_val4_explicit([0u64, 0, 0, 0]);
            lemma_modulus_value();
        }
        Fq { e: [0u64, 0, 0, 0] }
    }

    /// The multiplicative identity.
    pub fn one() -> (r: Fq)
        ensures
            r@ == 1,
            r.limbs() == [1u64, 0, 0, 0],
    {
        proof {
            lemma_val4_explicit([1u64, 0, 0, 0]);
            lemma_modulus_value();
        }
        Fq { e: [1u64, 0, 0, 0] }
    }

    /// The canonical little-endian limbs.
    pub closed spec fn limbs(&self) -> [u64; 4] {
        self.e
    }

    /// Canonical little-endian limbs; the value must be below q.
    pub fn from_canonical(e: [u64; 4]) -> (r: Fq)
        requires
            val4(e) < q_nat(),
        ensures
            r.limbs() == e,
            r@ == val4(e),
    {
        Fq { e }
    }

    pub fn to_canonical(&self) -> (r: [u64; 4])
        ensures
            r == self.limbs(),
            val4(r) == self@,
            self@ < q_nat(),
    {
        proof {
            use_type_invariant(self);
        }
        self.e
    }

    pub fn from_u64(v: u64) -> (r: Fq)
        ensures
            r.limbs() == [v, 0, 0, 0],
            r@ == v,
    {
        proof {
            lemma_val4_explicit([v, 0, 0, 0]);
        }
        Fq { e: [v, 0, 0, 0] }
    }

    /// q is 253-bit so the 256-bit add never overflows; reduce once if >= q.
    pub fn add(&self, other: &Fq) -> (r: Fq)
        ensures
            r@ == fq_add(self@, other@),
            r@ < q_nat(),
    {
        proof {
            use_type_invariant(self);
            use_type_invariant(other);
            lemma_modulus_value();
        }
        let (sum, carry) = adc(&self.e, &other.e);
        if is_fq_non_canonical(&sum) {
            let (reduced, _) = sbb(&sum, &MODULUS);
            proof {
                lemma_val4_bound(reduced);
                let t = val4(self.e) + val4(other.e);
                vstd::arithmetic::div_mod::lemma_fundamental_div_mod_converse(t as int, q_nat() as int, 1, t - q_nat());
            }
            Fq { e: reduced }
        } else {
            proof {
                let t = val4(self.e) + val4(other.e);
                vstd::arithmetic::div_mod::lemma_small_mod(t as nat, q_nat());
            }
            Fq { e: sum }
        }
    }

    pub fn sub(&self, other: &Fq) -> (r: Fq)
        ensures
            r@ == fq_sub(self@, other@),
            r@ < q_nat(),
    {
        proof {
            use_type_invariant(self);
            use_type_invariant(other);
            lemma_modulus_value();
        }
        let (diff, borrow) = sbb(&self.e, &other.e);
        if borrow {
            let (wrapped, _) = adc(&diff, &MODULUS);
            proof {
                lemma_val4_bound(wrapped);
                lemma_val4_bound(diff);
                let t = (val4(self.e) + q_nat() - val4(other.e)) as nat;
                vstd::arithmetic::div_mod::lemma_small_mod(t, q_nat());
            }
            Fq { e: wrapped }
        } else {
            proof {
                let t = (val4(self.e) + q_nat() - val4(other.e)) as nat;
                vstd::arithmetic::div_mod::lemma_fundamental_div_mod_converse(t as int, q_nat() as int, 1, val4(diff) as int);
            }
            Fq { e: diff }
        }
    }

    pub fn is_zero(&self) -> (r: bool)
        ensures
            r == (self@ == 0),
    {
        proof {
            lemma_val4_explicit(self.e);
        }
        self.e[0] == 0 && self.e[1] == 0 && self.e[2] == 0 && self.e[3] == 0
    }

    pub fn mul(&self, other: &Fq) -> (r: Fq)
        ensures
            r@ == fq_mul(self@, other@),
            r@ < q_nat(),
    {
        proof {
            use_type_invariant(self);
            use_type_invariant(other);
        }
        let e = ark_fq_mul(self.e, other.e);
        proof {
            lemma_modulus_value();
            vstd::arithmetic::div_mod::lemma_mod_bound((val4(self.e) * val4(other.e)) as int, q_nat() as int);
        }
        Fq { e }
    }

    pub fn square(&self) -> (r: Fq)
        ensures
            r@ == fq_mul(self@, self@),
            r@ < q_nat(),
    {
        proof {
            use_type_invariant(self);
        }
        let e = ark_fq_square(self.e);
        proof {
            lemma_modulus_value();
            vstd::arithmetic::div_mod::lemma_mod_bound((val4(self.e) * val4(self.e)) as int, q_nat() as int);
        }
        Fq { e }
    }
}


impl Fq {
    /// self / divisor: the product of self with the divisor's inverse.
    /// The divisor must be nonzero.
    pub fn div(&self, divisor: &Fq) -> (r: Fq)
        requires
            divisor@ != 0,
        ensures
            r@ < q_nat(),
            fq_mul(r@, divisor@) == self@,
    {
        proof {
            use_type_invariant(self);
            use_type_invariant(divisor);
        }
        let inv = ark_fq_inverse(divisor.e).unwrap();
        let e = ark_fq_mul(self.e, inv);
        proof {
            lemma_modulus_value();
            let a = val4(self.e) as int;
            let b = val4(divisor.e) as int;
            let i = val4(inv) as int;
            let q = q_nat() as int;
            vstd::arithmetic::div_mod::lemma_mod_bound(a * i, q);
            vstd::arithmetic::div_mod::lemma_mul_mod_noop_left(a * i, b, q);
            vstd::arithmetic::mul::lemma_mul_is_associative(a, i, b);
            vstd::arithmetic::mul::lemma_mul_is_commutative(i, b);
            vstd::arithmetic::div_mod::lemma_mul_mod_noop_right(a, i * b, q);
            vstd::arithmetic::div_mod::lemma_small_mod(a as nat, q as nat);
        }
        Fq { e }
    }

    pub fn inverse(&self) -> (r: Option<Fq>)
        ensures
            r is None <==> self@ == 0,
            r matches Some(i) ==> i@ < q_nat() && fq_mul(i@, self@) == 1,
    {
        if self.is_zero() {
            None
        } else {
            Some(Fq::one().div(self))
        }
    }

    pub fn neg(&self) -> (r: Fq)
        ensures
            r@ == fq_neg(self@),
            r@ < q_nat(),
    {
        Fq::zero().sub(self)
    }
}

/// Negation is an involution on canonical values.
pub proof fn lemma_fq_neg_involutive(a: nat)
    requires
        a < q_nat(),
    ensures
        fq_neg(fq_neg(a)) == a,
{
    let q = q_nat();
    if a == 0 {
        vstd::arithmetic::div_mod::lemma_small_mod(0, q);
    } else {
        vstd::arithmetic::div_mod::lemma_small_mod((q - a) as nat, q);
        vstd::arithmetic::div_mod::lemma_small_mod(a, q);
    }
}

/// Subtracting then adding back the same canonical value is the identity,
/// and so is adding then subtracting it.
pub proof fn lemma_fq_sub_add(a: nat, b: nat)
    requires
        a < q_nat(),
        b < q_nat(),
    ensures
        fq_add(fq_sub(a, b), b) == a,
        fq_sub(fq_add(a, b), b) == a,
{
    let q = q_nat();
    let s = ((a + q) - b) as nat;
    if a >= b {
        vstd::arithmetic::div_mod::lemma_fundamental_div_mod_converse(s as int, q as int, 1, a - b);
        vstd::arithmetic::div_mod::lemma_small_mod(a, q);
    } else {
        vstd::arithmetic::div_mod::lemma_small_mod(s, q);
        vstd::arithmetic::div_mod::lemma_fundamental_div_mod_converse((s + b) as int, q as int, 1, a as int);
    }
    let t = a + b;
    if t >= q {
        vstd::arithmetic::div_mod::lemma_fundamental_div_mod_converse(t as int, q as int, 1, t - q);
        vstd::arithmetic::div_mod::lemma_fundamental_div_mod_converse((t - q + q - b) as int, q as int, 0, a as int);
    } else {
        vstd::arithmetic::div_mod::lemma_small_mod(t, q);
        vstd::arithmetic::div_mod::lemma_fundamental_div_mod_converse((t + q - b) as int, q as int, 1, a as int);
    }
}


// --- Twisted Edwards point ops (extended coordinates, a = -1) ---------------
//
// Curve: -x^2 + y^2 = 1 + d*x^2*y^2 over Fq, d = 3021 (Aleo Edwards-BLS12).

/// The curve coefficient d = 3021.
pub open spec fn coeff_d_nat() -> nat {
    3021
}

/// The x coordinate of the generator.
pub open spec fn generator_x_nat() -> nat {
    4497879464030519973909970603271755437257548612157028181994697785683032656389nat
}

/// The y coordinate of the generator.
pub open spec fn generator_y_nat() -> nat {
    4357141146396347889246900916607623952598927460421559113092863576544024487809nat
}

/// Coordinates (X, Y, T, Z) of a point in extended coordinates, as field values.
pub type PointCoords = (nat, nat, nat, nat);

/// The neutral element (0, 1, 0, 1).
pub open spec fn ed_identity() -> PointCoords {
    (0, 1, 0, 1)
}

/// Unified addition for a = -1 (add-2008-hwcd-3).
pub open spec fn ed_add(p: PointCoords, q: PointCoords) -> PointCoords {
    let a = fq_mul(fq_sub(p.1, p.0), fq_sub(q.1, q.0));
    let b = fq_mul(fq_add(p.1, p.0), fq_add(q.1, q.0));
    let c = fq_mul(fq_mul(p.2, q.2), 2 * coeff_d_nat());
    let zz = fq_mul(p.3, q.3);
    let d = fq_add(zz, zz);
    let e = fq_sub(b, a);
    let f = fq_sub(d, c);
    let g = fq_add(d, c);
    let h = fq_add(b, a);
    (fq_mul(e, f), fq_mul(g, h), fq_mul(e, h), fq_mul(f, g))
}

/// Doubling for a = -1 (dbl-2008-hwcd).
pub open spec fn ed_double(p: PointCoords) -> PointCoords {
    let a = fq_mul(p.0, p.0);
    let b = fq_mul(p.1, p.1);
    let zz = fq_mul(p.3, p.3);
    let c = fq_add(zz, zz);
    let s = fq_add(p.0, p.1);
    let e = fq_sub(fq_sub(fq_mul(s, s), a), b);
    let g = fq_sub(b, a);
    let f = fq_sub(g, c);
    let h = fq_neg(fq_add(a, b));
    (fq_mul(e, f), fq_mul(g, h), fq_mul(e, h), fq_mul(f, g))
}

/// Negation (-X, Y, -T, Z).
pub open spec fn ed_neg(p: PointCoords) -> PointCoords {
    (fq_neg(p.0), p.1, fq_neg(p.2), p.3)
}

/// `n` times `p` by most-significant-bit-first double-and-add over the
/// binary digits of `n`.
pub open spec fn ed_scalar_mul(p: PointCoords, n: nat) -> PointCoords
    decreases n,
{
    if n == 0 {
        ed_identity()
    } else if n == 1 {
        p
    } else {
        let d = ed_double(ed_scalar_mul(p, n / 2));
        if n % 2 == 1 {
            ed_add(d, p)
        } else {
            d
        }
    }
}

/// d = 3021
pub fn coeff_d() -> (r: Fq)
    ensures
        r@ == coeff_d_nat(),
{
    proof {
        lemma_val4_explicit([0x0000000000000bcdu64, 0, 0, 0]);
        lemma_modulus_value();
    }
    Fq { e: [0x0000000000000bcd, 0, 0, 0] }
}

/// 2d = 6042
fn two_d() -> (r: Fq)
    ensures
        r@ == 2 * coeff_d_nat(),
{
    proof {
        lemma_val4_explicit([0x000000000000179au64, 0, 0, 0]);
        lemma_modulus_value();
    }
    Fq { e: [0x000000000000179a, 0, 0, 0] }
}

fn generator_x() -> (r: Fq)
    ensures
        r@ == generator_x_nat(),
{
    let e: [u64; 4] = [0x894e2328f3ebca05, 0x6068dd2835790980, 0x6fed91c9ae9ebfa0, 0x09f1b5a5baf6acf0];
    proof {
        lemma_val4_explicit(e);
        lemma_modulus_value();
    }
    Fq { e }
}

fn generator_y() -> (r: Fq)
    ensures
        r@ == generator_y_nat(),
{
    let e: [u64; 4] = [0xb50a67bf1a806781, 0x4453c177aaf3131b, 0xd906b256080ba845, 0x09a20df36571ac3c];
    proof {
        lemma_val4_explicit(e);
        lemma_modulus_value();
    }
    Fq { e }
}

/// Extended twisted-Edwards coordinates (X, Y, T, Z), T = XY/Z.
#[derive(Clone, Copy, Debug)]
pub struct EdwardsPoint {
    pub x: Fq,
    pub y: Fq,
    pub t: Fq,
    pub z: Fq,
}

impl View for EdwardsPoint {
    type V = PointCoords;

    open spec fn view(&self) -> PointCoords {
        (self.x@, self.y@, self.t@, self.z@)
    }
}

impl EdwardsPoint {
    /// The neutral element (0, 1, 0, 1).
    pub fn identity() -> (r: EdwardsPoint)
        ensures
            r@ == ed_identity(),
    {
        EdwardsPoint { x: Fq::zero(), y: Fq::one(), t: Fq::zero(), z: Fq::one() }
    }

    pub fn generator() -> (r: EdwardsPoint)
        ensures
            r@ == (generator_x_nat(), generator_y_nat(), fq_mul(generator_x_nat(), generator_y_nat()), 1nat),
    {
        let gx = generator_x();
        let gy = generator_y();
        EdwardsPoint { x: gx, y: gy, t: gx.mul(&gy), z: Fq::one() }
    }

    /// Unified addition (add-2008-hwcd-3 for a = -1): 8M + 1 small-constant M.
    pub fn add(&self, other: &EdwardsPoint) -> (r: EdwardsPoint)
        ensures
            r@ == ed_add(self@, other@),
    {
        let a = self.y.sub(&self.x).mul(&other.y.sub(&other.x));
        let b = self.y.add(&self.x).mul(&other.y.add(&other.x));
        let c = self.t.mul(&other.t).mul(&two_d());
        let zz = self.z.mul(&other.z);
        let d = zz.add(&zz);
        let e = b.sub(&a);
        let f = d.sub(&c);
        let g = d.add(&c);
        let h = b.add(&a);
        EdwardsPoint { x: e.mul(&f), y: g.mul(&h), t: e.mul(&h), z: f.mul(&g) }
    }

    /// Doubling (dbl-2008-hwcd for a = -1): 4S + 4M.
    pub fn double(&self) -> (r: EdwardsPoint)
        ensures
            r@ == ed_double(self@),
    {
        let a = self.x.square();
        let b = self.y.square();
        let zz = self.z.square();
        let c = zz.add(&zz);
        let e = self.x.add(&self.y).square().sub(&a).sub(&b);
        let g = b.sub(&a);  // D + B with D = -A
        let f = g.sub(&c);
        let h = a.add(&b).neg();  // D - B
        EdwardsPoint { x: e.mul(&f), y: g.mul(&h), t: e.mul(&h), z: f.mul(&g) }
    }

    pub fn neg(&self) -> (r: EdwardsPoint)
        ensures
            r@ == ed_neg(self@),
    {
        EdwardsPoint { x: self.x.neg(), y: self.y, t: self.t.neg(), z: self.z }
    }

    /// Canonical affine coordinates (x, y) = (X/Z, Y/Z); Z must be nonzero.
    pub fn to_affine(&self) -> (r: ([u64; 4], [u64; 4]))
        requires
            self.z@ != 0,
        ensures
            val4(r.0) < q_nat(),
            val4(r.1) < q_nat(),
            fq_mul(val4(r.0), self.z@) == self.x@,
            fq_mul(val4(r.1), self.z@) == self.y@,
    {
        (self.x.div(&self.z).to_canonical(), self.y.div(&self.z).to_canonical())
    }
}

/// Negating a point twice gives the point back.
pub proof fn lemma_ed_neg_involutive(p: PointCoords)
    requires
        p.0 < q_nat(),
        p.2 < q_nat(),
    ensures
        ed_neg(ed_neg(p)) == p,
{
    lemma_fq_neg_involutive(p.0);
    lemma_fq_neg_involutive(p.2);
}


/// The value of the limbs of `s` from index `i` upward, with limb `i` as the
/// least significant.
pub open spec fn limbs_from(s: [u64; 4], i: nat) -> nat
    decreases 4 - i,
{
    if i >= 4 {
        0
    } else {
        limbs_from(s, i + 1) * 0x1_0000_0000_0000_0000 + s[i as int] as nat
    }
}

proof fn lemma_limbs_from_zero(s: [u64; 4])
    ensures
        limbs_from(s, 0) == val4(s),
{
    reveal_with_fuel(limbs_from, 5);
    lemma_val4_explicit(s);
}

/// One more binary digit of a limb, taken from the top.
proof fn lemma_next_bit(x: u64, bi: u64)
    requires
        bi < 64,
    ensures
        x as nat / pow2(bi as nat) == 2 * (x as nat / pow2((bi + 1) as nat)) + ((x >> bi) & 1) as nat,
        ((x >> bi) & 1) == 0 || ((x >> bi) & 1) == 1,
{
    vstd::bits::lemma_u64_shr_is_div(x, bi);
    let t = x >> bi;
    assert(t & 1 == t % 2) by (bit_vector);
    lemma_pow2_pos(bi as nat);
    lemma_pow2_adds(bi as nat, 1);
    lemma2_to64();
    vstd::arithmetic::div_mod::lemma_div_denominator(x as int, pow2(bi as nat) as int, 2);
    vstd::arithmetic::div_mod::lemma_fundamental_div_mod(t as int, 2);
}

/// Doubling a value split in two parts and appending a bit.
proof fn lemma_double_append(hp: nat, d1: nat, hp2: nat, d0: nat, bit: nat)
    requires
        hp2 == 2 * hp,
        d0 == 2 * d1 + bit,
    ensures
        2 * (hp + d1) + bit == hp2 + d0,
{
}

/// Taking the next lower bit of a limb doubles the value read so far and
/// adds that bit.
proof fn lemma_bit_step(high: nat, limb: u64, bi: u64)
    requires
        bi < 64,
    ensures
        2 * (high * pow2((64 - (bi + 1)) as nat) + limb as nat / pow2((bi + 1) as nat)) + ((limb >> bi)
            & 1) as nat == high * pow2((64 - bi) as nat) + limb as nat / pow2(bi as nat),
        ((limb >> bi) & 1) == 0 || ((limb >> bi) & 1) == 1,
{
    lemma_next_bit(limb, bi);
    let a: nat = (64 - (bi + 1)) as nat;
    lemma_pow2_adds(a, 1);
    lemma2_to64();
    assert((64 - bi) as nat == a + 1);
    let p: nat = pow2(a);
    let p2: nat = pow2((64 - bi) as nat);
    assert(p2 == p * 2);
    let d1: nat = limb as nat / pow2((bi + 1) as nat);
    let d0: nat = limb as nat / pow2(bi as nat);
    let bit: nat = ((limb >> bi) & 1) as nat;
    assert(d0 == 2 * d1 + bit);
    assert(high * p2 == 2 * (high * p)) by (nonlinear_arith)
        requires
            p2 == p * 2,
    ;
    let hp: nat = high * p;
    let hp2: nat = high * p2;
    lemma_double_append(hp, d1, hp2, d0, bit);
}

impl EdwardsPoint {
    /// Plain MSB-first double-and-add over the unified `add`.
    pub fn scalar_mul(&self, scalar: &[u64; 4]) -> (r: EdwardsPoint)
        ensures
            r@ == ed_scalar_mul(self@, val4(*scalar)),
    {
        let mut acc = EdwardsPoint::identity();
        let mut started = false;
        let ghost mut v: nat = 0;
        let mut li: usize = 4;
        while li > 0
            invariant
                li <= 4,
                v == limbs_from(*scalar, li as nat),
                started == (v > 0),
                acc@ == ed_scalar_mul(self@, v),
            decreases li,
        {
            let limb_idx = li - 1;
            let ghost high = v;
            let limb = scalar[limb_idx];
            let mut b: u64 = 64;
            proof {
                lemma2_to64();
                lemma2_to64_rest();
                assert(limb as nat / pow2(64) == 0);
                assert((64 - b) as nat == 0);
                assert(pow2((64 - b) as nat) == 1);
                assert(high * pow2((64 - b) as nat) == high);
                assert(v == high * pow2((64 - b) as nat) + limb as nat / pow2(b as nat));
            }
            while b > 0
                invariant
                    b <= 64,
                    limb_idx < 4,
                    limb == scalar[limb_idx as int],
                    v == high * pow2((64 - b) as nat) + limb as nat / pow2(b as nat),
                    started == (v > 0),
                    acc@ == ed_scalar_mul(self@, v),
                decreases b,
            {
                let bit_idx = b - 1;
                proof {
                    lemma_bit_step(high, limb, bit_idx);
                }
                let bit = (limb >> bit_idx) & 1;
                let ghost next: nat = 2 * v + bit as nat;
                if started {
                    acc = acc.double();
                }
                if bit == 1 {
                    if started {
                        acc = acc.add(self);
                    } else {
                        acc = *self;
                        started = true;
                    }
                }
                proof {
                    v = next;
                }
                b = bit_idx;
            }
            proof {
                lemma2_to64();
                lemma2_to64_rest();
                assert(pow2(0) == 1);
                assert(limb as nat / pow2(0) == limb as nat);
                assert(pow2(64) == 0x1_0000_0000_0000_0000);
                assert(v == high * 0x1_0000_0000_0000_0000 + limb as nat);
                assert(limbs_from(*scalar, limb_idx as nat) == high * 0x1_0000_0000_0000_0000 + limb as nat);
            }
            li = limb_idx;
        }
        proof {
            lemma_limbs_from_zero(*scalar);
        }
        acc
    }
}

} // verus!
