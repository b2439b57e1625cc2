//! Little-endian 64-bit limb arithmetic on fixed-width naturals: the value
//! model shared by the field, the record identity and the column carries.
use vstd::prelude::*;
use vstd::bytes::{spec_u64_to_le_bytes, u64_to_le_bytes};

verus! {

/// 2^64, the weight ratio between neighbouring limbs.
#[verifier::inline]
pub open spec fn base() -> nat {
    0x1_0000_0000_0000_0000nat
}

/// 2^(64 k), the weight of limb `k`.
pub open spec fn limb_weight(k: nat) -> nat
    decreases k,
{
    if k == 0 {
        1
    } else {
        base() * limb_weight((k - 1) as nat)
    }
}

/// The value of the first `n` little-endian limbs of `s`.
pub open spec fn prefix_val(s: Seq<u64>, n: nat) -> nat
    decreases n,
{
    if n == 0 {
        0
    } else {
        prefix_val(s, (n - 1) as nat) + s[n - 1] as nat * limb_weight((n - 1) as nat)
    }
}

/// The value of a 256-bit number held in four limbs.
pub open spec fn val4(l: [u64; 4]) -> nat {
    prefix_val(l@, 4)
}

/// The value of a 512-bit number held in eight limbs.
pub open spec fn val8(l: [u64; 8]) -> nat {
    prefix_val(l@, 8)
}

pub proof fn lemma_weights()
    ensures
        limb_weight(0) == 1,
        limb_weight(1) == 0x1_0000_0000_0000_0000nat,
        limb_weight(2) == 0x1_0000_0000_0000_0000_0000_0000_0000_0000nat,
        limb_weight(3) == 0x1_0000_0000_0000_0000_0000_0000_0000_0000_0000_0000_0000_0000nat,
        limb_weight(4)
            == 0x1_0000_0000_0000_0000_0000_0000_0000_0000_0000_0000_0000_0000_0000_0000_0000_0000nat,
        limb_weight(5) == 0x1_0000_0000_0000_0000_0000_0000_0000_0000_0000_0000_0000_0000_0000_0000_0000_0000_0000_0000_0000_0000nat,
        limb_weight(6) == 0x1_0000_0000_0000_0000_0000_0000_0000_0000_0000_0000_0000_0000_0000_0000_0000_0000_0000_0000_0000_0000_0000_0000_0000_0000nat,
        limb_weight(7) == 0x1_0000_0000_0000_0000_0000_0000_0000_0000_0000_0000_0000_0000_0000_0000_0000_0000_0000_0000_0000_0000_0000_0000_0000_0000_0000_0000_0000_0000nat,
        limb_weight(8) == 0x1_0000_0000_0000_0000_0000_0000_0000_0000_0000_0000_0000_0000_0000_0000_0000_0000_0000_0000_0000_0000_0000_0000_0000_0000_0000_0000_0000_0000_0000_0000_0000_0000nat,
{
    assert(limb_weight(0) == 1);
    assert(limb_weight(1) == base() * limb_weight(0));
    assert(limb_weight(2) == base() * limb_weight(1));
    assert(limb_weight(3) == base() * limb_weight(2));
    assert(limb_weight(4) == base() * limb_weight(3));
    assert(limb_weight(5) == base() * limb_weight(4));
    assert(limb_weight(6) == base() * limb_weight(5));
    assert(limb_weight(7) == base() * limb_weight(6));
    assert(limb_weight(8) == base() * limb_weight(7));
}

/// The four-limb value written out.
pub proof fn lemma_val4_explicit(l: [u64; 4])
    ensures
        val4(l) == l[0] as nat + l[1] as nat * 0x1_0000_0000_0000_0000nat
            + l[2] as nat * 0x1_0000_0000_0000_0000_0000_0000_0000_0000nat
            + l[3] as nat * 0x1_0000_0000_0000_0000_0000_0000_0000_0000_0000_0000_0000_0000nat,
{
    lemma_weights();
    reveal_with_fuel(prefix_val, 5);
}

/// The sum of the limb products `a[i] * b[j]` with `i + j == k`, over `i < n`.
pub open spec fn col_products_upto(a: [u64; 4], b: [u64; 4], k: int, n: int) -> int
    decreases n,
{
    if n <= 0 {
        0
    } else {
        let i = n - 1;
        let j = k - i;
        col_products_upto(a, b, k, n - 1) + if 0 <= j < 4 && i < 4 {
            a[i] as int * b[j] as int
        } else {
            0
        }
    }
}

/// Column `k` of the schoolbook product: the sum of `a[i] * b[j]` over `i + j == k`.
pub open spec fn col_products(a: [u64; 4], b: [u64; 4], k: int) -> int {
    col_products_upto(a, b, k, 4)
}

/// The weighted sum of the first `n` product columns.
pub open spec fn columns_val(a: [u64; 4], b: [u64; 4], n: nat) -> int
    decreases n,
{
    if n == 0 {
        0
    } else {
        columns_val(a, b, (n - 1) as nat) + col_products(a, b, n - 1) * limb_weight((n - 1) as nat)
    }
}

/// Distributes a four-limb polynomial over a multiplier.
pub proof fn lemma_mul_poly4(c0: int, c1: int, c2: int, c3: int, m: int)
    ensures
        (c0 + c1 * 0x1_0000_0000_0000_0000int + c2 * 0x1_0000_0000_0000_0000_0000_0000_0000_0000int
            + c3 * 0x1_0000_0000_0000_0000_0000_0000_0000_0000_0000_0000_0000_0000int) * m == c0 * m
            + (c1 * m) * 0x1_0000_0000_0000_0000int + (c2 * m)
            * 0x1_0000_0000_0000_0000_0000_0000_0000_0000int + (c3 * m)
            * 0x1_0000_0000_0000_0000_0000_0000_0000_0000_0000_0000_0000_0000int,
{
    let k1 = 0x1_0000_0000_0000_0000int;
    let k2 = 0x1_0000_0000_0000_0000_0000_0000_0000_0000int;
    let k3 = 0x1_0000_0000_0000_0000_0000_0000_0000_0000_0000_0000_0000_0000int;
    vstd::arithmetic::mul::lemma_mul_is_distributive_add_other_way(m, c0 + c1 * k1 + c2 * k2, c3 * k3);
    vstd::arithmetic::mul::lemma_mul_is_distributive_add_other_way(m, c0 + c1 * k1, c2 * k2);
    vstd::arithmetic::mul::lemma_mul_is_distributive_add_other_way(m, c0, c1 * k1);
    vstd::arithmetic::mul::lemma_mul_is_associative(c1, k1, m);
    vstd::arithmetic::mul::lemma_mul_is_associative(c2, k2, m);
    vstd::arithmetic::mul::lemma_mul_is_associative(c3, k3, m);
    vstd::arithmetic::mul::lemma_mul_is_commutative(k1, m);
    vstd::arithmetic::mul::lemma_mul_is_commutative(k2, m);
    vstd::arithmetic::mul::lemma_mul_is_commutative(k3, m);
    vstd::arithmetic::mul::lemma_mul_is_associative(c1, m, k1);
    vstd::arithmetic::mul::lemma_mul_is_associative(c2, m, k2);
    vstd::arithmetic::mul::lemma_mul_is_associative(c3, m, k3);
}

/// Distributes a multiplier over a four-limb polynomial.
pub proof fn lemma_mul_poly4_left(m: int, c0: int, c1: int, c2: int, c3: int)
    ensures
        m * (c0 + c1 * 0x1_0000_0000_0000_0000int + c2 * 0x1_0000_0000_0000_0000_0000_0000_0000_0000int
            + c3 * 0x1_0000_0000_0000_0000_0000_0000_0000_0000_0000_0000_0000_0000int) == m * c0
            + (m * c1) * 0x1_0000_0000_0000_0000int + (m * c2)
            * 0x1_0000_0000_0000_0000_0000_0000_0000_0000int + (m * c3)
            * 0x1_0000_0000_0000_0000_0000_0000_0000_0000_0000_0000_0000_0000int,
{
    lemma_mul_poly4(c0, c1, c2, c3, m);
    let p = c0 + c1 * 0x1_0000_0000_0000_0000int + c2 * 0x1_0000_0000_0000_0000_0000_0000_0000_0000int
        + c3 * 0x1_0000_0000_0000_0000_0000_0000_0000_0000_0000_0000_0000_0000int;
    vstd::arithmetic::mul::lemma_mul_is_commutative(m, p);
    vstd::arithmetic::mul::lemma_mul_is_commutative(m, c0);
    vstd::arithmetic::mul::lemma_mul_is_commutative(m, c1);
    vstd::arithmetic::mul::lemma_mul_is_commutative(m, c2);
    vstd::arithmetic::mul::lemma_mul_is_commutative(m, c3);
}

/// The schoolbook expansion: a product of two four-limb numbers is the
/// weighted sum of its seven product columns.
pub proof fn lemma_product_columns(a: [u64; 4], b: [u64; 4])
    ensures
        val4(a) * val4(b) == columns_val(a, b, 7),
        columns_val(a, b, 8) == columns_val(a, b, 7),
{
    let k1 = 0x1_0000_0000_0000_0000int;
    let k2 = 0x1_0000_0000_0000_0000_0000_0000_0000_0000int;
    let k3 = 0x1_0000_0000_0000_0000_0000_0000_0000_0000_0000_0000_0000_0000int;
    lemma_val4_explicit(a);
    lemma_val4_explicit(b);
    lemma_weights();
    let (a0, a1, a2, a3) = (a[0] as int, a[1] as int, a[2] as int, a[3] as int);
    let (b0, b1, b2, b3) = (b[0] as int, b[1] as int, b[2] as int, b[3] as int);
    let x = val4(a) as int;
    let y = val4(b) as int;
    assert(x == a0 + a1 * k1 + a2 * k2 + a3 * k3);
    assert(y == b0 + b1 * k1 + b2 * k2 + b3 * k3);
    lemma_mul_poly4(a0, a1, a2, a3, y);
    assert(x * y == a0 * y + (a1 * y) * k1 + (a2 * y) * k2 + (a3 * y) * k3);
    lemma_mul_poly4_left(a0, b0, b1, b2, b3);
    lemma_mul_poly4_left(a1, b0, b1, b2, b3);
    lemma_mul_poly4_left(a2, b0, b1, b2, b3);
    lemma_mul_poly4_left(a3, b0, b1, b2, b3);
    assert(a0 * y == a0 * b0 + (a0 * b1) * k1 + (a0 * b2) * k2 + (a0 * b3) * k3);
    assert(a1 * y == a1 * b0 + (a1 * b1) * k1 + (a1 * b2) * k2 + (a1 * b3) * k3);
    assert(a2 * y == a2 * b0 + (a2 * b1) * k1 + (a2 * b2) * k2 + (a2 * b3) * k3);
    assert(a3 * y == a3 * b0 + (a3 * b1) * k1 + (a3 * b2) * k2 + (a3 * b3) * k3);
    reveal_with_fuel(col_products_upto, 5);
    let c0 = col_products(a, b, 0);
    let c1 = col_products(a, b, 1);
    let c2 = col_products(a, b, 2);
    let c3 = col_products(a, b, 3);
    let c4 = col_products(a, b, 4);
    let c5 = col_products(a, b, 5);
    let c6 = col_products(a, b, 6);
    assert(c0 == a0 * b0);
    assert(c1 == a0 * b1 + a1 * b0);
    assert(c2 == a0 * b2 + a1 * b1 + a2 * b0);
    assert(c3 == a0 * b3 + a1 * b2 + a2 * b1 + a3 * b0);
    assert(c4 == a1 * b3 + a2 * b2 + a3 * b1);
    assert(c5 == a2 * b3 + a3 * b2);
    assert(c6 == a3 * b3);
    assert(col_products(a, b, 7) == 0);
    reveal_with_fuel(columns_val, 9);
    assert(columns_val(a, b, 7) == c0 + c1 * k1 + c2 * k2 + c3 * k3 + c4 * limb_weight(4) + c5
        * limb_weight(5) + c6 * limb_weight(6));
    assert(x * y == c0 + c1 * k1 + c2 * k2 + c3 * k3 + c4 * limb_weight(4) + c5 * limb_weight(5)
        + c6 * limb_weight(6));
    assert(columns_val(a, b, 8) == columns_val(a, b, 7) + col_products(a, b, 7) * limb_weight(7));
}

pub proof fn lemma_weight_pos(k: nat)
    ensures
        limb_weight(k) >= 1,
    decreases k,
{
    if k > 0 {
        lemma_weight_pos((k - 1) as nat);
    }
}

/// Weights multiply: 2^(64 (i + j)) == 2^(64 i) * 2^(64 j).
pub proof fn lemma_weight_add(i: nat, j: nat)
    ensures
        limb_weight(i + j) == limb_weight(i) * limb_weight(j),
    decreases j,
{
    if j > 0 {
        let jm = (j - 1) as nat;
        lemma_weight_add(i, jm);
        let a = limb_weight(i) as int;
        let b = limb_weight(jm) as int;
        assert(limb_weight(i + jm) == a * b);
        assert(i + j == (i + jm) + 1);
        assert(limb_weight(i + j) == base() * limb_weight(i + jm));
        assert(limb_weight(j) == base() * b);
        assert(base() * (a * b) == a * (base() * b)) by (nonlinear_arith);
    } else {
        assert(limb_weight(0) == 1);
        assert(i + j == i);
    }
}

/// A prefix of limbs is below the weight of the next limb.
pub proof fn lemma_prefix_bound(s: Seq<u64>, n: nat)
    requires
        n <= s.len(),
    ensures
        prefix_val(s, n) < limb_weight(n),
    decreases n,
{
    if n > 0 {
        lemma_prefix_bound(s, (n - 1) as nat);
        let w = limb_weight((n - 1) as nat) as int;
        let d = s[n - 1] as int;
        assert(d * w <= (base() - 1) * w) by (nonlinear_arith)
            requires
                0 <= d <= base() - 1,
                w >= 0,
        ;
        assert(limb_weight(n) == base() * w);
        assert(prefix_val(s, n) == prefix_val(s, (n - 1) as nat) + d * w);
    }
}

/// Overwriting limb `k` changes the value by the limb difference times its weight.
pub proof fn lemma_prefix_update(s: Seq<u64>, k: int, v: u64, n: nat)
    requires
        n <= s.len(),
        0 <= k < s.len(),
    ensures
        k >= n ==> prefix_val(s.update(k, v), n) == prefix_val(s, n),
        k < n ==> prefix_val(s.update(k, v), n) + s[k] as nat * limb_weight(k as nat) == prefix_val(
            s,
            n,
        ) + v as nat * limb_weight(k as nat),
    decreases n,
{
    if n > 0 {
        lemma_prefix_update(s, k, v, (n - 1) as nat);
    }
}

/// Limbs that are zero beyond position `m` do not contribute.
pub proof fn lemma_prefix_zero_tail(s: Seq<u64>, m: nat, n: nat)
    requires
        m <= n <= s.len(),
        forall|k: int| m <= k < n ==> s[k] == 0,
    ensures
        prefix_val(s, n) == prefix_val(s, m),
    decreases n,
{
    if n > m {
        lemma_prefix_zero_tail(s, m, (n - 1) as nat);
    }
}

/// Two sequences that agree on the first `n` limbs have the same prefix value.
pub proof fn lemma_prefix_agree(s: Seq<u64>, t: Seq<u64>, n: nat)
    requires
        n <= s.len(),
        n <= t.len(),
        forall|k: int| 0 <= k < n ==> s[k] == t[k],
    ensures
        prefix_val(s, n) == prefix_val(t, n),
    decreases n,
{
    if n > 0 {
        lemma_prefix_agree(s, t, (n - 1) as nat);
    }
}

/// One step of a carry chain, scaled by the weight of its position.
pub proof fn lemma_carry_step(lo: int, hi: int, rhs: int, w: int)
    requires
        lo + hi * base() == rhs,
    ensures
        lo * w + hi * (base() * w) == rhs * w,
{
    assert(lo * w + hi * (base() * w) == (lo + hi * base()) * w) by (nonlinear_arith);
}

/// Splits column `k` of the schoolbook product of `a` and `b` into a high
/// and a low part, each a sum of at most four 64-bit halves.
pub fn column_split(a: &[u64; 4], b: &[u64; 4], k: usize) -> (r: (u128, u128))
    ensures
        r.0 as int * base() + r.1 as int == col_products(*a, *b, k as int),
        r.0 <= 4 * (base() - 1),
        r.1 <= 4 * (base() - 1),
{
    let mut hi: u128 = 0;
    let mut lo: u128 = 0;
    for i in 0..4usize
        invariant
            hi as int * base() + lo as int == col_products_upto(*a, *b, k as int, i as int),
            hi <= i * (base() - 1),
            lo <= i * (base() - 1),
    {
        if k >= i && k - i < 4 {
            let j = k - i;
            let ai = a[i];
            let bj = b[j];
            assert(ai as int * bj as int <= 0xffff_ffff_ffff_ffffint * 0xffff_ffff_ffff_ffffint)
                by (nonlinear_arith)
                requires
                    ai <= 0xffff_ffff_ffff_ffffint,
                    bj <= 0xffff_ffff_ffff_ffffint,
            ;
            let p: u128 = ai as u128 * bj as u128;
            let ph = p / 0x1_0000_0000_0000_0000u128;
            let pl = p % 0x1_0000_0000_0000_0000u128;
            assert(ph * base() + pl == p);
            assert(ph <= base() - 1);
            hi = hi + ph;
            lo = lo + pl;
        }
    }
    (hi, lo)
}


/// A four-limb value is below 2^256.
pub proof fn lemma_val4_bound(l: [u64; 4])
    ensures
        val4(l) < limb_weight(4),
{
    lemma_prefix_bound(l@, 4);
}

/// An eight-limb value is below 2^512.
pub proof fn lemma_val8_bound(l: [u64; 8])
    ensures
        val8(l) < limb_weight(8),
{
    lemma_prefix_bound(l@, 8);
}

/// The full 512-bit product of two 256-bit numbers.
pub fn mul_wide(a: &[u64; 4], b: &[u64; 4]) -> (r: [u64; 8])
    ensures
        val8(r) == val4(*a) * val4(*b),
{
    let mut r = [0u64; 8];
    let mut carry: u128 = 0;
    proof {
        reveal_with_fuel(prefix_val, 1);
    }
    for k in 0..8usize
        invariant
            prefix_val(r@, k as nat) + carry * limb_weight(k as nat) == columns_val(*a, *b, k as nat),
            forall|m: int| k <= m < 8 ==> r@[m] == 0,
            carry <= 5 * base(),
    {
        let (h, l) = column_split(a, b, k);
        let v_lo: u128 = l + carry % 0x1_0000_0000_0000_0000u128;
        let limb = (v_lo % 0x1_0000_0000_0000_0000u128) as u64;
        let next: u128 = h + carry / 0x1_0000_0000_0000_0000u128 + v_lo / 0x1_0000_0000_0000_0000u128;
        proof {
            assert(limb as int + next as int * base() == col_products(*a, *b, k as int) + carry);
            let w = limb_weight(k as nat) as int;
            lemma_carry_step(limb as int, next as int, col_products(*a, *b, k as int) + carry, w);
            lemma_prefix_update(r@, k as int, limb, (k + 1) as nat);
            lemma_prefix_update(r@, k as int, limb, k as nat);
            assert(limb_weight((k + 1) as nat) == base() * w);
            let c = col_products(*a, *b, k as int);
            assert((c + carry) * w == c * w + carry * w) by (nonlinear_arith);
            assert(columns_val(*a, *b, (k + 1) as nat) == columns_val(*a, *b, k as nat) + c * w);
        }
        r[k] = limb;
        carry = next;
    }
    proof {
        lemma_product_columns(*a, *b);
        lemma_val4_bound(*a);
        lemma_val4_bound(*b);
        lemma_weight_add(4, 4);
        let x = val4(*a) as int;
        let y = val4(*b) as int;
        let w4 = limb_weight(4) as int;
        assert(x * y < w4 * w4) by (nonlinear_arith)
            requires
                0 <= x < w4,
                0 <= y < w4,
        ;
        let w8 = limb_weight(8) as int;
        if carry > 0 {
            assert(carry * w8 >= w8) by (nonlinear_arith)
                requires
                    carry >= 1,
                    w8 >= 0,
            ;
        }
    }
    r
}

/// Widens a 256-bit number to 512 bits.
pub fn widen(a: &[u64; 4]) -> (r: [u64; 8])
    ensures
        val8(r) == val4(*a),
{
    let r = [a[0], a[1], a[2], a[3], 0, 0, 0, 0];
    proof {
        lemma_prefix_zero_tail(r@, 4, 8);
        lemma_prefix_agree(r@, a@, 4);
    }
    r
}

/// `val8(a) <= val8(b)`, decided from the most significant limb down.
pub fn le_wide(a: &[u64; 8], b: &[u64; 8]) -> (r: bool)
    ensures
        r == (val8(*a) <= val8(*b)),
{
    let mut k: usize = 8;
    while k > 0
        invariant
            k <= 8,
            (val8(*a) <= val8(*b)) == (prefix_val(a@, k as nat) <= prefix_val(b@, k as nat)),
        decreases k,
    {
        let i = k - 1;
        proof {
            lemma_prefix_bound(a@, i as nat);
            lemma_prefix_bound(b@, i as nat);
            let w = limb_weight(i as nat) as int;
            let x = a[i as int] as int;
            let y = b[i as int] as int;
            if x < y {
                assert(x * w + w <= y * w) by (nonlinear_arith)
                    requires
                        x + 1 <= y,
                        w >= 0,
                ;
            }
            if x > y {
                assert(y * w + w <= x * w) by (nonlinear_arith)
                    requires
                        y + 1 <= x,
                        w >= 0,
                ;
            }
        }
        if a[i] < b[i] {
            return true;
        }
        if a[i] > b[i] {
            return false;
        }
        k = i;
    }
    true
}

/// `val8(a) - val8(b)` for `val8(a) >= val8(b)`.
pub fn sub_wide(a: &[u64; 8], b: &[u64; 8]) -> (r: [u64; 8])
    requires
        val8(*a) >= val8(*b),
    ensures
        val8(r) == val8(*a) - val8(*b),
{
    let mut r = [0u64; 8];
    let mut borrow: u64 = 0;
    for k in 0..8usize
        invariant
            prefix_val(r@, k as nat) + prefix_val(b@, k as nat) == prefix_val(a@, k as nat) + borrow
                * limb_weight(k as nat),
            borrow <= 1,
    {
        let ak = a[k] as u128;
        let sub = b[k] as u128 + borrow as u128;
        let (limb, next): (u64, u64) = if ak >= sub {
            ((ak - sub) as u64, 0)
        } else {
            ((ak + 0x1_0000_0000_0000_0000u128 - sub) as u64, 1)
        };
        proof {
            assert(limb as int + b[k as int] as int == a[k as int] as int + next as int * base()
                - borrow as int);
            let w = limb_weight(k as nat) as int;
            lemma_carry_step(limb as int, -(next as int), a[k as int] as int - b[k as int] as int
                - borrow as int, w);
            lemma_prefix_update(r@, k as int, limb, (k + 1) as nat);
            lemma_prefix_update(r@, k as int, limb, k as nat);
            assert(limb_weight((k + 1) as nat) == base() * w);
            assert(-(next as int) * (base() * w) == -(next as int * (base() * w))) by (nonlinear_arith);
            assert(b[k as int] as int * w + a[k as int] as int * w - b[k as int] as int * w == a[k as int] as int * w);
            assert((a[k as int] as int - b[k as int] as int - borrow as int) * w == a[k as int] as int * w - b[k as int] as int * w - borrow as int * w) by (nonlinear_arith);
        }
        r[k] = limb;
        borrow = next;
    }
    proof {
        lemma_val8_bound(r);
        if borrow > 0 {
            assert(val8(*a) + limb_weight(8) == val8(r) + val8(*b));
        }
    }
    r
}


/// `floor(val8(d) / val4(q))`, for a quotient below 2^256. Each limb of the
/// quotient is found by a binary search on the product with `q`.
pub fn div_wide(d: &[u64; 8], q: &[u64; 4]) -> (w: [u64; 4])
    requires
        val4(*q) > 0,
        val8(*d) < val4(*q) * limb_weight(4),
    ensures
        val4(w) * val4(*q) <= val8(*d) < (val4(w) + 1) * val4(*q),
        val4(w) == val8(*d) / val4(*q),
{
    let ghost dv = val8(*d) as int;
    let ghost qv = val4(*q) as int;
    let mut w = [0u64; 4];
    let mut kk: usize = 4;
    proof {
        assert(forall|m: int| 0 <= m < 4 ==> w@[m] == 0);
        lemma_prefix_zero_tail(w@, 0, 4);
        assert(val4(w) == 0);
        let w4 = limb_weight(4) as int;
        assert(qv * w4 == (0 + w4) * qv) by (nonlinear_arith);
    }
    while kk > 0
        invariant
            kk <= 4,
            dv == val8(*d),
            qv == val4(*q),
            qv > 0,
            forall|m: int| 0 <= m < kk ==> w@[m] == 0,
            val4(w) * qv <= dv,
            dv < (val4(w) + limb_weight(kk as nat)) * qv,
        decreases kk,
    {
        let k = kk - 1;
        let ghost wv = val4(w) as int;
        let ghost wk = limb_weight(k as nat) as int;
        let mut lo: u64 = 0;
        let mut hi: u64 = 0xffff_ffff_ffff_ffff;
        proof {
            assert(limb_weight(kk as nat) == base() * wk);
            assert(wv + 0 * wk == wv);
            assert(wv + (hi + 1) * wk == wv + limb_weight(kk as nat));
        }
        while lo < hi
            invariant
                k < 4,
                lo <= hi,
                w@[k as int] == 0,
                wv == val4(w),
                wk == limb_weight(k as nat),
                dv == val8(*d),
                qv == val4(*q),
                (wv + lo * wk) * qv <= dv,
                dv < (wv + (hi + 1) * wk) * qv,
            decreases hi - lo,
        {
            let mid = lo + (hi - lo) / 2 + 1;
            let mut cand = w;
            cand[k] = mid;
            proof {
                lemma_prefix_update(w@, k as int, mid, 4);
                assert(cand@ == w@.update(k as int, mid));
                assert(val4(cand) == wv + mid * wk);
            }
            let p = mul_wide(&cand, q);
            if le_wide(&p, d) {
                lo = mid;
            } else {
                hi = mid - 1;
                assert(wv + (hi + 1) * wk == val4(cand));
            }
        }
        proof {
            lemma_prefix_update(w@, k as int, lo, 4);
            assert((lo + 1) * wk == lo * wk + wk) by (nonlinear_arith);
        }
        let ghost old_w = w;
        w[k] = lo;
        proof {
            assert(w@ == old_w@.update(k as int, lo));
            assert(val4(w) == wv + lo * wk);
        }
        kk = k;
    }
    proof {
        let wv = val4(w) as int;
        assert(limb_weight(0) == 1);
        assert((wv + 1) * qv == wv * qv + qv) by (nonlinear_arith);
        vstd::arithmetic::div_mod::lemma_fundamental_div_mod_converse(dv, qv, wv, dv - wv * qv);
        assert(wv * qv == qv * wv) by (nonlinear_arith);
    }
    w
}


/// The little-endian bytes of a sequence of limbs, limb after limb.
pub open spec fn limbs_le_bytes(l: Seq<u64>) -> Seq<u8>
    decreases l.len(),
{
    if l.len() == 0 {
        Seq::empty()
    } else {
        limbs_le_bytes(l.drop_last()) + spec_u64_to_le_bytes(l.last())
    }
}

/// Appends the eight little-endian bytes of `v`.
pub fn push_le_bytes(bytes: &mut Vec<u8>, v: u64)
    ensures
        final(bytes)@ == old(bytes)@ + spec_u64_to_le_bytes(v),
{
    let mut le = u64_to_le_bytes(v);
    bytes.append(&mut le);
}

/// Appends the little-endian bytes of four limbs.
pub fn push_limbs_le_bytes(bytes: &mut Vec<u8>, l: &[u64; 4])
    ensures
        final(bytes)@ == old(bytes)@ + limbs_le_bytes(l@),
{
    let ghost start = bytes@;
    for i in 0..4usize
        invariant
            bytes@ == start + limbs_le_bytes(l@.subrange(0, i as int)),
    {
        push_le_bytes(bytes, l[i]);
        proof {
            let s = l@.subrange(0, i + 1);
            assert(s.drop_last() == l@.subrange(0, i as int));
            assert(s.last() == l[i as int]);
        }
        assert(bytes@ == start + limbs_le_bytes(l@.subrange(0, i + 1)));
    }
    assert(l@.subrange(0, 4) == l@);
}

} // verus!
