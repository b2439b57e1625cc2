//! The foreign-field acceleration witness: every advice-backed field op
//! contributes one record satisfying `x * y = w * q + z` over the integers
//! (Mul: (a, b, c); Square: (a, a, c); Div normalizes to (c, b, a)). The
//! identity is checked over the four 64-bit words of each value via seven
//! product columns and six signed column carries, committed in offset form
//! and range-checked by 2-bit digits.
use crate::limbs::{base, columns_val, lemma_product_columns, lemma_val4_explicit, lemma_weights, column_split, col_products, div_wide, limb_weight, limbs_le_bytes, mul_wide, push_limbs_le_bytes, sub_wide, val4, val8, widen};
use num_bigint::BigUint;
use vstd::prelude::*;
use vstd::arithmetic::power2::{lemma2_to64, lemma_pow2_adds, lemma_pow2_pos, pow2};

verus! {

#[verifier::external_type_specification]
#[verifier::external_body]
pub struct ExBigUint(BigUint);

/// Guest-declared modulus. Not hardcoded to any curve.
#[derive(Clone, Copy, Debug, PartialEq, Eq)]
pub struct FieldAccelParams {
    pub modulus_limbs: [u64; 4],
}

impl FieldAccelParams {
    /// The modulus as a big unsigned integer, built from its little-endian bytes.
    pub fn modulus(&self) -> (r: BigUint)
        ensures
            r == biguint_of_le_bytes(limbs_le_bytes(self.modulus_limbs@)),
    {
        limbs_to_biguint(&self.modulus_limbs)
    }
}

/// The big unsigned integer whose little-endian base-256 digits are `bytes`,
/// as `BigUint::from_bytes_le` builds it.
pub uninterp spec fn biguint_of_le_bytes(bytes: Seq<u8>) -> BigUint;

/// `BigUint::from_bytes_le` of num-bigint: the big unsigned integer whose
/// little-endian base-256 digits are `bytes`. The contract claims only that
/// the result depends on the bytes alone (it is the named value of them);
/// the value a `BigUint` holds is opaque here.
#[verifier::external_body]
fn biguint_from_bytes_le(bytes: &[u8]) -> (r: BigUint)
    ensures
        r == biguint_of_le_bytes(bytes@),
{
    BigUint::from_bytes_le(bytes)
}

/// The little-endian bytes of four limbs, handed to `BigUint::from_bytes_le`.
pub fn limbs_to_biguint(limbs: &[u64; 4]) -> (r: BigUint)
    ensures
        r == biguint_of_le_bytes(limbs_le_bytes(limbs@)),
{
    let mut bytes: Vec<u8> = Vec::with_capacity(32);
    push_limbs_le_bytes(&mut bytes, limbs);
    assert(bytes@ == limbs_le_bytes(limbs@));
    biguint_from_bytes_le(bytes.as_slice())
}

/// One field-op invocation, normalized so the verified identity is always
/// `x * y = w * q + z` over the integers.
#[derive(Clone, Copy, Debug, PartialEq, Eq)]
pub struct FieldOpRecord {
    pub x: [u64; 4],
    pub y: [u64; 4],
    pub z: [u64; 4],
    pub w: [u64; 4],
}

/// The integer identity `x * y == w * q + z` of a record.
pub open spec fn satisfies_identity(r: FieldOpRecord, q: [u64; 4]) -> bool {
    val4(r.x) * val4(r.y) == val4(r.w) * val4(q) + val4(r.z)
}

/// The inputs for which the quotient of `x * y - z` by `q` is exact and fits
/// in four limbs.
pub open spec fn identity_quotient_exists(x: [u64; 4], y: [u64; 4], z: [u64; 4], q: [u64; 4]) -> bool {
    &&& val4(q) > 0
    &&& val4(x) * val4(y) >= val4(z)
    &&& (val4(x) * val4(y) - val4(z)) % (val4(q) as int) == 0
    &&& (val4(x) * val4(y) - val4(z)) / (val4(q) as int) < limb_weight(4)
}

/// The quotient `w = (x * y - z) / q`, computed on 512-bit intermediates.
pub fn identity_quotient(x: &[u64; 4], y: &[u64; 4], z: &[u64; 4], q: &[u64; 4]) -> (w: [u64; 4])
    requires
        val4(*q) > 0,
        val4(*x) * val4(*y) >= val4(*z),
        (val4(*x) * val4(*y) - val4(*z)) / (val4(*q) as int) < limb_weight(4),
    ensures
        val4(w) == (val4(*x) * val4(*y) - val4(*z)) / (val4(*q) as int),
{
    let product = mul_wide(x, y);
    let zw = widen(z);
    let diff = sub_wide(&product, &zw);
    proof {
        let d = val8(diff) as int;
        let qv = val4(*q) as int;
        let w4 = limb_weight(4) as int;
        vstd::arithmetic::div_mod::lemma_fundamental_div_mod(d, qv);
        assert(d < qv * w4) by (nonlinear_arith)
            requires
                d == qv * (d / qv) + d % qv,
                d % qv < qv,
                d / qv < w4,
                d / qv >= 0,
                qv > 0,
        ;
    }
    div_wide(&diff, q)
}

impl FieldOpRecord {
    /// Build a record from (x, y, z) with x*y ≡ z (mod q); derives w. The
    /// identity must hold exactly: x*y >= z, q divides x*y - z, and the
    /// quotient fits in four limbs.
    pub fn new(x: [u64; 4], y: [u64; 4], z: [u64; 4], params: &FieldAccelParams) -> (r: Self)
        requires
            identity_quotient_exists(x, y, z, params.modulus_limbs),
        ensures
            r.x == x,
            r.y == y,
            r.z == z,
            val4(r.w) == (val4(x) * val4(y) - val4(z)) / (val4(params.modulus_limbs) as int),
            satisfies_identity(r, params.modulus_limbs),
    {
        let w = identity_quotient(&x, &y, &z, &params.modulus_limbs);
        proof {
            let d = val4(x) * val4(y) - val4(z);
            let qv = val4(params.modulus_limbs) as int;
            vstd::arithmetic::div_mod::lemma_fundamental_div_mod(d, qv);
            assert(val4(w) * qv == qv * (d / qv)) by (nonlinear_arith)
                requires val4(w) == d / qv;
        }
        FieldOpRecord { x, y, z, w }
    }
}


/// Number of 64-bit product columns: words i + j = k for i, j in 0..4.
pub const NUM_PRODUCT_COLUMNS: usize = 7;

/// Number of carry columns (no carry out of the last column).
pub const NUM_CARRIES: usize = 6;

/// Carries are committed with this offset so the committed value is
/// non-negative: carry' = carry + CARRY_OFFSET.
pub const CARRY_OFFSET: i128 = 0x10_0000_0000_0000_0000;

/// 2-bit digits per committed carry (70 bits cover every offset carry).
pub const DIGITS_PER_CARRY: usize = 35;

/// Total committed digit columns.
pub const NUM_DIGIT_COLUMNS: usize = 210;

/// Column `k` of `x*y - w*q - z`: the signed sum of the limb products whose
/// indices add up to `k`, less the `k`-th limb of `z`.
pub open spec fn column_sum(r: FieldOpRecord, q: [u64; 4], k: int) -> int {
    col_products(r.x, r.y, k) - col_products(r.w, q, k) - if 0 <= k < 4 {
        r.z[k] as int
    } else {
        0
    }
}

/// The carry out of column `k`: `floor((S_k + carry_{k-1}) / 2^64)`, with no
/// carry into column 0.
pub open spec fn column_carry(r: FieldOpRecord, q: [u64; 4], k: nat) -> int
    decreases k,
{
    (column_sum(r, q, k as int) + carry_into(r, q, k)) / (base() as int)
}

/// The carry into column `k`.
pub open spec fn carry_into(r: FieldOpRecord, q: [u64; 4], k: nat) -> int
    decreases k, 0nat,
{
    if k == 0 {
        0
    } else {
        column_carry(r, q, (k - 1) as nat)
    }
}

/// Every carried column divides exactly by 2^64 and the last column balances
/// with no carry out.
pub open spec fn columns_balance(r: FieldOpRecord, q: [u64; 4]) -> bool {
    &&& forall|k: nat|
        k < 6 ==> #[trigger] (column_sum(r, q, k as int) + carry_into(r, q, k)) % (base() as int)
            == 0
    &&& column_sum(r, q, 6) + carry_into(r, q, 6) == 0
}

/// Per-record signed carries balancing the seven 64-bit product columns:
///   S_k = sum over i+j=k of x_i*y_j - sum over i+j=k of w_i*q_j - z_k*[k<4]
///   S_0 = carry_0*2^64;  S_k + carry_{k-1} = carry_k*2^64 (k=1..5);
///   S_6 + carry_5 = 0.
pub fn column_carries_64(record: &FieldOpRecord, params: &FieldAccelParams) -> (carries: [i128; 6])
    requires
        columns_balance(*record, params.modulus_limbs),
    ensures
        forall|k: int| 0 <= k < 6 ==> carries[k] == column_carry(*record, params.modulus_limbs, k as nat),
        forall|k: int| 0 <= k < 6 ==> -0x8_0000_0000_0000_0000 < #[trigger] carries[k] < 0x8_0000_0000_0000_0000,
{
    let q = params.modulus_limbs;
    let mut carries = [0i128; 6];
    let mut carry_in: i128 = 0;
    for k in 0..6usize
        invariant
            q == params.modulus_limbs,
            carry_in == carry_into(*record, q, k as nat),
            -0x8_0000_0000_0000_0000 < carry_in < 0x8_0000_0000_0000_0000,
            forall|m: int| 0 <= m < k ==> carries[m] == column_carry(*record, q, m as nat),
            forall|m: int| 0 <= m < k ==> -0x8_0000_0000_0000_0000 < #[trigger] carries[m] < 0x8_0000_0000_0000_0000,
    {
        let (xh, xl) = column_split(&record.x, &record.y, k);
        let (wh, wl) = column_split(&record.w, &q, k);
        let zk: u64 = if k < 4 {
            record.z[k]
        } else {
            0
        };
        let h: i128 = xh as i128 - wh as i128;
        let l: i128 = xl as i128 - wl as i128 - zk as i128 + carry_in;
        // floor(l / 2^64) through a non-negative shift by 2^69 = 32 * 2^64
        let shifted: u128 = (l + 0x20_0000_0000_0000_0000i128) as u128;
        let carry: i128 = h + (shifted / 0x1_0000_0000_0000_0000u128) as i128 - 32;
        proof {
            let b = base() as int;
            let v = column_sum(*record, q, k as int) + carry_in;
            assert(v == h * b + l);
            vstd::arithmetic::div_mod::lemma_fundamental_div_mod(shifted as int, b);
            let fl = shifted as int / b - 32;
            assert(l == fl * b + (shifted as int % b));
            assert(v == (h + fl) * b + (shifted as int % b)) by (nonlinear_arith)
                requires
                    v == h * b + l,
                    l == fl * b + (shifted as int % b),
            ;
            vstd::arithmetic::div_mod::lemma_fundamental_div_mod_converse(v, b, h + fl, shifted as int % b);
            assert(carry == column_carry(*record, q, k as nat));
        }
        carries[k] = carry;
        carry_in = carry;
    }
    carries
}


/// The remainders modulo 2^64 of the first `n` carried columns, weighted by
/// their column position.
pub open spec fn column_remainders(r: FieldOpRecord, q: [u64; 4], n: nat) -> int
    decreases n,
{
    if n == 0 {
        0
    } else {
        column_remainders(r, q, (n - 1) as nat) + ((column_sum(r, q, n - 1) + carry_into(
            r,
            q,
            (n - 1) as nat,
        )) % (base() as int)) * limb_weight((n - 1) as nat)
    }
}

/// A record satisfies `x*y == w*q + z` over the integers exactly when its
/// seven 64-bit columns balance: every carried column divides by 2^64 and the
/// last column cancels its carry-in with no carry out.
pub proof fn lemma_identity_iff_columns_balance(r: FieldOpRecord, q: [u64; 4])
    ensures
        satisfies_identity(r, q) <==> columns_balance(r, q),
{
    lemma_columns_telescope(r, q);
    lemma_weights();
    let v6 = column_sum(r, q, 6) + carry_into(r, q, 6);
    let w6 = limb_weight(6) as int;
    let rem = column_remainders(r, q, 6);
    if satisfies_identity(r, q) {
        assert(v6 * w6 + rem == 0);
        assert(v6 == 0);
        assert(rem == 0);
    }
    if columns_balance(r, q) {
        assert(rem == 0);
        assert(v6 * w6 == 0);
    }
}

/// `x*y - w*q - z` telescopes over the columns into the final column's
/// balance times 2^384 plus the weighted remainders of the carried columns.
proof fn lemma_columns_telescope(r: FieldOpRecord, q: [u64; 4])
    ensures
        val4(r.x) * val4(r.y) - val4(r.w) * val4(q) - val4(r.z) == (column_sum(r, q, 6) + carry_into(
            r,
            q,
            6,
        )) * limb_weight(6) + column_remainders(r, q, 6),
        0 <= column_remainders(r, q, 6) < limb_weight(6),
        column_remainders(r, q, 6) == 0 <==> forall|k: nat|
            k < 6 ==> #[trigger] (column_sum(r, q, k as int) + carry_into(r, q, k)) % (base() as int)
                == 0,
{
    lemma_product_columns(r.x, r.y);
    lemma_product_columns(r.w, q);
    lemma_val4_explicit(r.z);
    lemma_weights();
    reveal_with_fuel(columns_val, 8);
    let b = base() as int;
    let s0 = column_sum(r, q, 0);
    let s1 = column_sum(r, q, 1);
    let s2 = column_sum(r, q, 2);
    let s3 = column_sum(r, q, 3);
    let s4 = column_sum(r, q, 4);
    let s5 = column_sum(r, q, 5);
    let s6 = column_sum(r, q, 6);
    let w1 = 0x1_0000_0000_0000_0000int;
    let w2 = 0x1_0000_0000_0000_0000_0000_0000_0000_0000int;
    let w3 = 0x1_0000_0000_0000_0000_0000_0000_0000_0000_0000_0000_0000_0000int;
    let w4 = 0x1_0000_0000_0000_0000_0000_0000_0000_0000_0000_0000_0000_0000_0000_0000_0000_0000int;
    let w5 = 0x1_0000_0000_0000_0000_0000_0000_0000_0000_0000_0000_0000_0000_0000_0000_0000_0000_0000_0000_0000_0000int;
    let w6 = 0x1_0000_0000_0000_0000_0000_0000_0000_0000_0000_0000_0000_0000_0000_0000_0000_0000_0000_0000_0000_0000_0000_0000_0000_0000int;
    let xy = |k: int| col_products(r.x, r.y, k);
    let wq = |k: int| col_products(r.w, q, k);
    assert(columns_val(r.x, r.y, 7) == xy(0) + xy(1) * w1 + xy(2) * w2 + xy(3) * w3 + xy(4) * w4
        + xy(5) * w5 + xy(6) * w6);
    assert(columns_val(r.w, q, 7) == wq(0) + wq(1) * w1 + wq(2) * w2 + wq(3) * w3 + wq(4) * w4
        + wq(5) * w5 + wq(6) * w6);
    assert(s0 == xy(0) - wq(0) - r.z[0]);
    assert(s1 == xy(1) - wq(1) - r.z[1]);
    assert(s2 == xy(2) - wq(2) - r.z[2]);
    assert(s3 == xy(3) - wq(3) - r.z[3]);
    assert(s4 == xy(4) - wq(4));
    assert(s5 == xy(5) - wq(5));
    assert(s6 == xy(6) - wq(6));
    let t = val4(r.x) * val4(r.y) - val4(r.w) * val4(q) - val4(r.z);
    assert(t == s0 + s1 * w1 + s2 * w2 + s3 * w3 + s4 * w4 + s5 * w5 + s6 * w6);
    let c0 = column_carry(r, q, 0);
    let c1 = column_carry(r, q, 1);
    let c2 = column_carry(r, q, 2);
    let c3 = column_carry(r, q, 3);
    let c4 = column_carry(r, q, 4);
    let c5 = column_carry(r, q, 5);
    assert(carry_into(r, q, 0) == 0);
    assert(carry_into(r, q, 1) == c0);
    assert(carry_into(r, q, 2) == c1);
    assert(carry_into(r, q, 3) == c2);
    assert(carry_into(r, q, 4) == c3);
    assert(carry_into(r, q, 5) == c4);
    assert(carry_into(r, q, 6) == c5);
    let v0 = s0;
    let v1 = s1 + c0;
    let v2 = s2 + c1;
    let v3 = s3 + c2;
    let v4 = s4 + c3;
    let v5 = s5 + c4;
    let v6 = s6 + c5;
    vstd::arithmetic::div_mod::lemma_fundamental_div_mod(v0, b);
    vstd::arithmetic::div_mod::lemma_fundamental_div_mod(v1, b);
    vstd::arithmetic::div_mod::lemma_fundamental_div_mod(v2, b);
    vstd::arithmetic::div_mod::lemma_fundamental_div_mod(v3, b);
    vstd::arithmetic::div_mod::lemma_fundamental_div_mod(v4, b);
    vstd::arithmetic::div_mod::lemma_fundamental_div_mod(v5, b);
    assert(c0 == v0 / b);
    assert(c1 == v1 / b);
    assert(c2 == v2 / b);
    assert(c3 == v3 / b);
    assert(c4 == v4 / b);
    assert(c5 == v5 / b);
    let (r0, r1, r2, r3, r4, r5) = (v0 % b, v1 % b, v2 % b, v3 % b, v4 % b, v5 % b);
    let rem = r0 + r1 * w1 + r2 * w2 + r3 * w3 + r4 * w4 + r5 * w5;
    reveal_with_fuel(column_remainders, 7);
    assert(column_remainders(r, q, 6) == rem);
    assert(t == v6 * w6 + rem);
    assert(0 <= rem < w6);
    if rem == 0 {
        assert(r0 == 0 && r1 == 0 && r2 == 0 && r3 == 0 && r4 == 0 && r5 == 0);
        assert forall|k: nat| k < 6 implies #[trigger] (column_sum(r, q, k as int) + carry_into(r, q, k))
            % b == 0 by {
            if k == 0 {
            } else if k == 1 {
            } else if k == 2 {
            } else if k == 3 {
            } else if k == 4 {
            } else {
                assert(k == 5);
            }
        }
    }
    if forall|k: nat| k < 6 ==> #[trigger] (column_sum(r, q, k as int) + carry_into(r, q, k)) % b == 0 {
        assert((column_sum(r, q, 0) + carry_into(r, q, 0)) % b == 0);
        assert((column_sum(r, q, 1) + carry_into(r, q, 1)) % b == 0);
        assert((column_sum(r, q, 2) + carry_into(r, q, 2)) % b == 0);
        assert((column_sum(r, q, 3) + carry_into(r, q, 3)) % b == 0);
        assert((column_sum(r, q, 4) + carry_into(r, q, 4)) % b == 0);
        assert((column_sum(r, q, 5) + carry_into(r, q, 5)) % b == 0);
    }
}


/// `n` is a power of two.
pub open spec fn is_power_of_two(n: nat) -> bool
    decreases n,
{
    if n <= 1 {
        n == 1
    } else {
        n % 2 == 0 && is_power_of_two(n / 2)
    }
}

/// `p` is the smallest power of two that is at least `max(len, 1)`.
pub open spec fn is_padded_rows(len: nat, p: nat) -> bool {
    &&& is_power_of_two(p)
    &&& p >= len
    &&& p >= 1
    &&& (p == 1 || p / 2 < len)
}

/// The row count of the witness: the smallest power of two at or above
/// `max(len, 1)`.
pub fn padded_rows(len: usize) -> (p: usize)
    requires
        len <= usize::MAX / 2 + 1,
    ensures
        is_padded_rows(len as nat, p as nat),
{
    let mut p: usize = 1;
    while p < len
        invariant
            len <= usize::MAX / 2 + 1,
            is_power_of_two(p as nat),
            p >= 1,
            p == 1 || p / 2 < len,
        decreases usize::MAX - p,
    {
        assert((2 * p) / 2 == p);
        assert(((2 * p) as nat) % 2 == 0);
        p = 2 * p;
    }
    p
}

/// Word `c` (order: x0..3, y0..3, z0..3, w0..3) of a record's 16-word block.
pub open spec fn record_word(r: FieldOpRecord, c: int) -> u64 {
    let limb = c % 4;
    if c < 4 {
        r.x[limb]
    } else if c < 8 {
        r.y[limb]
    } else if c < 12 {
        r.z[limb]
    } else {
        r.w[limb]
    }
}

/// 2-bit digit `d` of a committed carry, little-endian.
pub open spec fn carry_digit(v: nat, d: nat) -> nat {
    (v / vstd::arithmetic::power2::pow2(2 * d)) % 4
}

/// The committed gadget witness, one entry per record row, padded with
/// all-zero records (which satisfy the identity trivially) to a power of
/// two. `words` are the same values as the record's 16-word block in the
/// committed advice region (order: x0..3, y0..3, z0..3, w0..3); only
/// `carries` (offset) and `digits` are gadget-committed columns in the
/// bound protocol.
#[derive(Clone, Debug)]
pub struct FieldAccelWitness {
    pub words: [Vec<u64>; 16],
    /// Offset carries: carry + CARRY_OFFSET, in [0, 2^69).
    pub carries: [Vec<u128>; 6],
    /// 2-bit digits of each offset carry, little-endian:
    /// digits[j * DIGITS_PER_CARRY + d][row] = (carries[j][row] >> 2d) & 3.
    pub digits: Vec<Vec<u8>>,
    pub num_records: usize,
}

/// Word column `c` of the witness: the records' word `c`, zero-padded to `n` rows.
fn word_column(records: &[FieldOpRecord], c: usize, n: usize) -> (col: Vec<u64>)
    requires
        c < 16,
        records.len() <= n,
    ensures
        col@.len() == n,
        forall|row: int|
            0 <= row < n ==> #[trigger] col@[row] == if row < records.len() {
                record_word(records@[row], c as int)
            } else {
                0
            },
{
    let mut col: Vec<u64> = Vec::with_capacity(n);
    for i in 0..records.len()
        invariant
            c < 16,
            col@.len() == i,
            forall|row: int| 0 <= row < i ==> #[trigger] col@[row] == record_word(records@[row], c as int),
    {
        let r = &records[i];
        let limb = c % 4;
        let v = if c < 4 {
            r.x[limb]
        } else if c < 8 {
            r.y[limb]
        } else if c < 12 {
            r.z[limb]
        } else {
            r.w[limb]
        };
        col.push(v);
    }
    while col.len() < n
        invariant
            c < 16,
            records.len() <= col@.len() <= n,
            forall|row: int|
                0 <= row < col@.len() ==> #[trigger] col@[row] == if row < records.len() {
                    record_word(records@[row], c as int)
                } else {
                    0
                },
        decreases n - col@.len(),
    {
        col.push(0);
    }
    col
}

/// Offset carry column `j`: each record's carry plus `CARRY_OFFSET`, padded
/// with the zero record's offset carry, `CARRY_OFFSET` itself.
fn carry_column(all: &Vec<[i128; 6]>, j: usize, n: usize) -> (col: Vec<u128>)
    requires
        j < 6,
        all@.len() <= n,
        forall|row: int, k: int|
            0 <= row < all@.len() && 0 <= k < 6 ==> -0x8_0000_0000_0000_0000 < #[trigger] all@[row][k]
                < 0x8_0000_0000_0000_0000,
    ensures
        col@.len() == n,
        forall|row: int|
            0 <= row < n ==> #[trigger] col@[row] as int == if row < all@.len() {
                all@[row][j as int] + CARRY_OFFSET
            } else {
                CARRY_OFFSET as int
            },
        forall|row: int| 0 <= row < n ==> #[trigger] col@[row] < 0x40_0000_0000_0000_0000,
{
    let mut col: Vec<u128> = Vec::with_capacity(n);
    for i in 0..all.len()
        invariant
            j < 6,
            col@.len() == i,
            forall|row: int, k: int|
                0 <= row < all@.len() && 0 <= k < 6 ==> -0x8_0000_0000_0000_0000
                    < #[trigger] all@[row][k] < 0x8_0000_0000_0000_0000,
            forall|row: int|
                0 <= row < i ==> #[trigger] col@[row] as int == all@[row][j as int] + CARRY_OFFSET,
            forall|row: int| 0 <= row < i ==> #[trigger] col@[row] < 0x40_0000_0000_0000_0000,
    {
        let carry = all[i][j];
        assert(-0x8_0000_0000_0000_0000 < all@[i as int][j as int] < 0x8_0000_0000_0000_0000);
        let offset = (carry + CARRY_OFFSET) as u128;
        col.push(offset);
    }
    while col.len() < n
        invariant
            all@.len() <= col@.len() <= n,
            forall|row: int|
                0 <= row < col@.len() ==> #[trigger] col@[row] as int == if row < all@.len() {
                    all@[row][j as int] + CARRY_OFFSET
                } else {
                    CARRY_OFFSET as int
                },
            forall|row: int| 0 <= row < col@.len() ==> #[trigger] col@[row] < 0x40_0000_0000_0000_0000,
        decreases n - col@.len(),
    {
        col.push(CARRY_OFFSET as u128);
    }
    col
}

/// Digit column `d` of one offset carry column.
fn digit_column(carries: &Vec<u128>, d: usize) -> (col: Vec<u8>)
    requires
        d < 35,
    ensures
        col@.len() == carries@.len(),
        forall|row: int|
            0 <= row < carries@.len() ==> #[trigger] col@[row] as nat == carry_digit(
                carries@[row] as nat,
                d as nat,
            ),
{
    let mut col: Vec<u8> = Vec::with_capacity(carries.len());
    for i in 0..carries.len()
        invariant
            d < 35,
            col@.len() == i,
            forall|row: int|
                0 <= row < i ==> #[trigger] col@[row] as nat == carry_digit(
                    carries@[row] as nat,
                    d as nat,
                ),
    {
        let v = carries[i];
        let shift = (2 * d) as u128;
        let t = v >> shift;
        let digit = (t & 3) as u8;
        proof {
            vstd::bits::lemma_u128_shr_is_div(v, shift);
            assert(t & 3 == t % 4) by (bit_vector);
        }
        col.push(digit);
    }
    col
}

impl FieldAccelWitness {
    /// Lays the records out as witness rows: 16 word columns, 6 offset carry
    /// columns and their 210 digit columns, zero-padded to a power of two.
    pub fn from_records(records: &[FieldOpRecord], params: &FieldAccelParams) -> (wit: Self)
        requires
            forall|i: int|
                0 <= i < records.len() ==> satisfies_identity(#[trigger] records@[i], params.modulus_limbs),
            records.len() <= usize::MAX / 2,
        ensures
            wit.num_records == records.len(),
            is_padded_rows(records.len() as nat, wit.words[0]@.len()),
            forall|c: int, row: int|
                0 <= c < 16 && 0 <= row < wit.words[0]@.len() ==> wit.words[c]@.len() == wit.words[0]@.len()
                    && #[trigger] wit.words[c]@[row] == if row < records.len() {
                    record_word(records@[row], c)
                } else {
                    0
                },
            forall|j: int, row: int|
                0 <= j < 6 && 0 <= row < wit.words[0]@.len() ==> wit.carries[j]@.len() == wit.words[0]@.len()
                    && #[trigger] wit.carries[j]@[row] as int == CARRY_OFFSET + if row < records.len() {
                    column_carry(records@[row], params.modulus_limbs, j as nat)
                } else {
                    0
                },
            forall|j: int, row: int|
                0 <= j < 6 && 0 <= row < wit.words[0]@.len() ==> #[trigger] wit.carries[j]@[row]
                    < 0x40_0000_0000_0000_0000,
            wit.digits@.len() == 210,
            forall|j: int, d: int|
                0 <= j < 6 && 0 <= d < 35 ==> #[trigger] wit.digits@[j * 35 + d]@.len()
                    == wit.words[0]@.len(),
            forall|j: int, d: int, row: int|
                0 <= j < 6 && 0 <= d < 35 && 0 <= row < wit.words[0]@.len()
                    ==> #[trigger] wit.digits@[j * 35 + d]@[row] as nat == carry_digit(
                    wit.carries[j]@[row] as nat,
                    d as nat,
                ),
    {
        let n = padded_rows(records.len());
        let mut all: Vec<[i128; 6]> = Vec::with_capacity(records.len());
        for i in 0..records.len()
            invariant
                all@.len() == i,
                forall|r: int|
                    0 <= r < records.len() ==> satisfies_identity(#[trigger] records@[r], params.modulus_limbs),
                forall|row: int, k: int|
                    0 <= row < i && 0 <= k < 6 ==> #[trigger] all@[row][k] == column_carry(records@[row], params.modulus_limbs, k as nat),
                forall|row: int, k: int|
                    0 <= row < i && 0 <= k < 6 ==> -0x8_0000_0000_0000_0000 < #[trigger] all@[row][k]
                        < 0x8_0000_0000_0000_0000,
        {
            proof {
                lemma_identity_iff_columns_balance(records@[i as int], params.modulus_limbs);
            }
            let carries = column_carries_64(&records[i], params);
            all.push(carries);
        }
        let words = [
            word_column(records, 0, n),
            word_column(records, 1, n),
            word_column(records, 2, n),
            word_column(records, 3, n),
            word_column(records, 4, n),
            word_column(records, 5, n),
            word_column(records, 6, n),
            word_column(records, 7, n),
            word_column(records, 8, n),
            word_column(records, 9, n),
            word_column(records, 10, n),
            word_column(records, 11, n),
            word_column(records, 12, n),
            word_column(records, 13, n),
            word_column(records, 14, n),
            word_column(records, 15, n),
        ];
        let carries = [
            carry_column(&all, 0, n),
            carry_column(&all, 1, n),
            carry_column(&all, 2, n),
            carry_column(&all, 3, n),
            carry_column(&all, 4, n),
            carry_column(&all, 5, n),
        ];
        let mut digits: Vec<Vec<u8>> = Vec::with_capacity(NUM_DIGIT_COLUMNS);
        for t in 0..NUM_DIGIT_COLUMNS
            invariant
                digits@.len() == t,
                forall|jj: int| 0 <= jj < 6 ==> #[trigger] carries[jj]@.len() == n,
                forall|tt: int| 0 <= tt < t ==> #[trigger] digits@[tt]@.len() == n,
                forall|tt: int, row: int|
                    0 <= tt < t && 0 <= row < n ==> #[trigger] digits@[tt]@[row] as nat == carry_digit(
                        carries[tt / 35]@[row] as nat,
                        (tt % 35) as nat,
                    ),
        {
            let j = t / DIGITS_PER_CARRY;
            let d = t % DIGITS_PER_CARRY;
            let col = digit_column(&carries[j], d);
            let ghost before = digits@;
            digits.push(col);
            assert(digits@[t as int] == col);
            assert forall|tt: int, row: int|
                0 <= tt < t + 1 && 0 <= row < n implies #[trigger] digits@[tt]@[row] as nat
                    == carry_digit(carries[tt / 35]@[row] as nat, (tt % 35) as nat) by {
                if tt < t {
                    assert(digits@[tt] == before[tt]);
                    assert(before[tt]@[row] as nat == carry_digit(carries[tt / 35]@[row] as nat, (tt % 35) as nat));
                } else {
                    assert(col@[row] as nat == carry_digit(carries[(t / 35) as int]@[row] as nat, (t % 35) as nat));
                }
            }
            assert forall|tt: int| 0 <= tt < t + 1 implies #[trigger] digits@[tt]@.len() == n by {
                if tt < t {
                    assert(digits@[tt] == before[tt]);
                }
            }
        }
        proof {
            assert forall|j: int, d: int| 0 <= j < 6 && 0 <= d < 35 implies #[trigger] digits@[j * 35
                + d]@.len() == n by {
                assert(0 <= j * 35 + d < 210);
            }
            assert forall|j: int, d: int, row: int|
                0 <= j < 6 && 0 <= d < 35 && 0 <= row < n implies #[trigger] digits@[j * 35 + d]@[row] as nat
                    == carry_digit(carries[j]@[row] as nat, d as nat) by {
                assert((j * 35 + d) / 35 == j);
                assert((j * 35 + d) % 35 == d);
            }
        }
        FieldAccelWitness { words, carries, digits, num_records: records.len() }
    }

    /// Number of witness rows (records plus zero padding).
    pub fn padded_len(&self) -> (n: usize)
        ensures
            n == self.words[0]@.len(),
    {
        self.words[0].len()
    }
}


/// The value of the first `n` base-4 digits of `v`.
pub open spec fn digits_val(v: nat, n: nat) -> nat
    decreases n,
{
    if n == 0 {
        0
    } else {
        digits_val(v, (n - 1) as nat) + carry_digit(v, (n - 1) as nat)
            * vstd::arithmetic::power2::pow2((2 * (n - 1)) as nat)
    }
}

/// The first `n` base-4 digits of `v` recompose `v` modulo 4^n.
pub proof fn lemma_digits_val(v: nat, n: nat)
    ensures
        digits_val(v, n) == v % vstd::arithmetic::power2::pow2(2 * n),
    decreases n,
{
    lemma2_to64();
    if n == 0 {
        assert(v % 1 == 0);
    } else {
        let m = (n - 1) as nat;
        lemma_digits_val(v, m);
        lemma_pow2_pos(2 * m);
        lemma_pow2_adds(2 * m, 2);
        assert(2 * n == 2 * m + 2);
        vstd::arithmetic::div_mod::lemma_mod_breakdown(v as int, pow2(2 * m) as int, 4);
        assert(pow2(2 * m) * ((v / pow2(2 * m)) % 4) == carry_digit(v, m) * pow2(2 * m)) by {
            vstd::arithmetic::mul::lemma_mul_is_commutative(pow2(2 * m) as int, ((v / pow2(2 * m)) % 4) as int);
        }
    }
}

/// The 35 committed 2-bit digits of an offset carry below 2^70 recompose it
/// exactly.
pub proof fn lemma_carry_digits_recompose(v: nat)
    requires
        v < 0x40_0000_0000_0000_0000,
    ensures
        digits_val(v, 35) == v,
{
    lemma_digits_val(v, 35);
    vstd::arithmetic::power2::lemma2_to64();
    vstd::arithmetic::power2::lemma_pow2_adds(64, 6);
    assert(vstd::arithmetic::power2::pow2(70) == 0x40_0000_0000_0000_0000);
    vstd::arithmetic::div_mod::lemma_small_mod(v, vstd::arithmetic::power2::pow2(70));
}

/// The record a 16-word region row holds: x, y, z and w in words 0..4,
/// 4..8, 8..12 and 12..16.
pub fn row_to_record(row: &[u64; 16]) -> (r: FieldOpRecord)
    ensures
        forall|c: int| 0 <= c < 16 ==> #[trigger] record_word(r, c) == row[c],
{
    FieldOpRecord {
        x: [row[0], row[1], row[2], row[3]],
        y: [row[4], row[5], row[6], row[7]],
        z: [row[8], row[9], row[10], row[11]],
        w: [row[12], row[13], row[14], row[15]],
    }
}

} // verus!
