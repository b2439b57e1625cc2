//! Host-side record building for the advice-quotient field ops: the
//! invocation log in verified-identity order (x, y, z, w) with
//! x*y = w*q + z exactly over the integers, and the padded record blob the
//! guest receives as its untrusted-advice input.
use crate::bind::{block_matches, decode_header_spec, finalize_spec, head_pad, head_pad_spec, init_spec, leb128_len, lemma_region_header_decodes, region_header_word, region_word, satisfies_pad_rule, weld_spec, WeldState, RECORD_BYTES};
use crate::limbs::{lemma_val4_bound, limb_weight, limbs_le_bytes, prefix_val, push_limbs_le_bytes, val4, lemma_carry_step, lemma_prefix_update};
use crate::record::{identity_quotient, identity_quotient_exists};
use crate::sdk::{fq_mul, lemma_modulus_value, q_nat, Fq, MODULUS};
use ark_ed_on_bls12_377::Fq as ArkFq;
use ark_ff::PrimeField;
use vstd::prelude::*;
use vstd::bytes::{spec_u64_from_le_bytes, spec_u64_to_le_bytes};

verus! {

/// `PrimeField::MODULUS` of arkworks' `ark_ed_on_bls12_377::Fq` (the
/// BLS12-377 scalar field, declared in ark-bls12-377 with modulus
/// 8444461749428370424248824938781546531375899335154063827935233455917409239041),
/// as little-endian limbs.
#[verifier::external_body]
fn ark_fq_modulus() -> (m: [u64; 4])
    ensures
        m == MODULUS,
{
    ArkFq::MODULUS.0
}

/// p = 2^256 - q, computed from the arkworks modulus.
pub fn neg_modulus_limbs() -> (p: [u64; 4])
    ensures
        val4(p) + q_nat() == limb_weight(4),
{
    let m = ark_fq_modulus();
    let mut p = [0u64; 4];
    let mut carry: u64 = 1;
    for i in 0..4usize
        invariant
            m == MODULUS,
            carry <= 1,
            prefix_val(p@, i as nat) + carry * limb_weight(i as nat) + prefix_val(m@, i as nat)
                == limb_weight(i as nat),
    {
        let mi = m[i];
        let inv = !mi;
        proof {
            assert(!mi == 0xffff_ffff_ffff_ffffu64 - mi) by (bit_vector);
        }
        let s: u128 = inv as u128 + carry as u128;
        let v = (s % 0x1_0000_0000_0000_0000u128) as u64;
        let c = (s / 0x1_0000_0000_0000_0000u128) as u64;
        proof {
            let w = limb_weight(i as nat) as int;
            lemma_carry_step(v as int, c as int, inv as int + carry as int, w);
            lemma_prefix_update(p@, i as int, v, (i + 1) as nat);
            lemma_prefix_update(p@, i as int, v, i as nat);
            assert(limb_weight((i + 1) as nat) == 0x1_0000_0000_0000_0000 * w);
            assert((inv as int + carry as int) * w == (0xffff_ffff_ffff_ffff - mi as int) * w + carry * w) by (nonlinear_arith)
                requires inv as int == 0xffff_ffff_ffff_ffff - mi as int;
            assert((0xffff_ffff_ffff_ffff - mi as int) * w == 0x1_0000_0000_0000_0000 * w - w - mi as int * w) by (nonlinear_arith);
        }
        p[i] = v;
        carry = c;
    }
    proof {
        lemma_modulus_value();
        if carry == 1 {
            assert(val4(p) + limb_weight(4) + q_nat() == limb_weight(4));
        }
    }
    p
}

/// One logged invocation in verified-identity order: (x, y, z, w) with
/// x*y = w*q + z exactly over the integers.
pub type LoggedRecord = ([u64; 4], [u64; 4], [u64; 4], [u64; 4]);

/// The host-side invocation log. Records are normalized to the verified
/// identity shape x*y = w*q + z (Mul: (a,b,c); Square: (a,a,c);
/// Div: (c,b,a)); the quotient w is derived at log time.
pub struct FieldOpLog {
    records: Vec<LoggedRecord>,
}

impl View for FieldOpLog {
    type V = Seq<LoggedRecord>;

    closed spec fn view(&self) -> Seq<LoggedRecord> {
        self.records@
    }
}

impl FieldOpLog {
    /// An empty log.
    pub fn new() -> (log: FieldOpLog)
        ensures
            log@ == Seq::<LoggedRecord>::empty(),
    {
        FieldOpLog { records: Vec::new() }
    }

    fn push(&mut self, record: LoggedRecord)
        ensures
            final(self)@ == old(self)@.push(record),
    {
        self.records.push(record);
    }
}

/// Drain the (x, y, z, w) invocation log accumulated since the last call.
pub fn take_field_op_log(log: &mut FieldOpLog) -> (r: Vec<LoggedRecord>)
    ensures
        r@ == old(log)@,
        final(log)@ == Seq::<LoggedRecord>::empty(),
{
    let mut out: Vec<LoggedRecord> = Vec::new();
    core::mem::swap(&mut out, &mut log.records);
    out
}

/// The quotient of `x*y - z` by q for the Edwards-BLS12 base field.
pub open spec fn record_quotient(x: [u64; 4], y: [u64; 4], z: [u64; 4]) -> int {
    (val4(x) * val4(y) - val4(z)) / (q_nat() as int)
}

/// Derive the quotient w for (x, y, z): x*y = w*q + z. The identity must
/// divide exactly with a quotient that fits in four limbs.
pub fn record_from_xyz(x: [u64; 4], y: [u64; 4], z: [u64; 4]) -> (r: LoggedRecord)
    requires
        identity_quotient_exists(x, y, z, MODULUS),
    ensures
        r.0 == x,
        r.1 == y,
        r.2 == z,
        val4(r.3) == record_quotient(x, y, z),
        val4(x) * val4(y) == val4(r.3) * q_nat() + val4(z),
{
    proof {
        lemma_modulus_value();
    }
    let w = identity_quotient(&x, &y, &z, &MODULUS);
    proof {
        let d = val4(x) * val4(y) - val4(z);
        let q = q_nat() as int;
        vstd::arithmetic::div_mod::lemma_fundamental_div_mod(d, q);
        assert(val4(w) * q == q * (d / q)) by (nonlinear_arith)
            requires
                val4(w) == d / q,
        ;
    }
    (x, y, z, w)
}

/// The product of two canonical values and its reduction form a record.
pub proof fn lemma_reduced_product_record(u: [u64; 4], v: [u64; 4], c: [u64; 4])
    requires
        val4(u) < q_nat(),
        val4(v) < q_nat(),
        val4(c) == fq_mul(val4(u), val4(v)),
    ensures
        identity_quotient_exists(u, v, c, MODULUS),
{
    lemma_modulus_value();
    let q = q_nat() as int;
    let p = (val4(u) * val4(v)) as int;
    vstd::arithmetic::div_mod::lemma_fundamental_div_mod(p, q);
    assert(p < q * q) by (nonlinear_arith)
        requires
            val4(u) < q,
            val4(v) < q,
            p == val4(u) * val4(v),
    ;
    assert((p - val4(c)) == q * (p / q));
    vstd::arithmetic::div_mod::lemma_div_multiples_vanish(p / q, q);
    vstd::arithmetic::mul::lemma_mul_is_commutative(q, p / q);
    vstd::arithmetic::div_mod::lemma_mod_multiples_basic(p / q, q);
    assert(p / q < q) by (nonlinear_arith)
        requires
            p < q * q,
            q > 0,
            p >= 0,
    ;
}

/// Append the record of (x, y, z), whose identity divides exactly.
fn log_record(log: &mut FieldOpLog, x: Fq, y: Fq, z: Fq)
    requires
        fq_mul(x@, y@) == z@,
    ensures
        final(log)@.len() == old(log)@.len() + 1,
        final(log)@.drop_last() == old(log)@,
        final(log)@.last().0 == x.limbs(),
        final(log)@.last().1 == y.limbs(),
        final(log)@.last().2 == z.limbs(),
        val4(final(log)@.last().3) == record_quotient(x.limbs(), y.limbs(), z.limbs()),
{
    let xl = x.to_canonical();
    let yl = y.to_canonical();
    let zl = z.to_canonical();
    proof {
        lemma_reduced_product_record(xl, yl, zl);
    }
    let record = record_from_xyz(xl, yl, zl);
    log.push(record);
    assert(log@.drop_last() =~= old(log)@);
}

/// Test entry to the log path (same derivation as `log_record`).
pub fn log_record_for_test(log: &mut FieldOpLog, x: [u64; 4], y: [u64; 4], z: [u64; 4])
    requires
        identity_quotient_exists(x, y, z, MODULUS),
    ensures
        final(log)@.len() == old(log)@.len() + 1,
        final(log)@.drop_last() == old(log)@,
        final(log)@.last().0 == x,
        final(log)@.last().1 == y,
        final(log)@.last().2 == z,
        val4(final(log)@.last().3) == record_quotient(x, y, z),
{
    let record = record_from_xyz(x, y, z);
    log.push(record);
    assert(log@.drop_last() =~= old(log)@);
}


/// The three advice-quotient inline ops of the Edwards-BLS12 base field.
#[derive(Clone, Copy, Debug, PartialEq, Eq)]
pub enum EdBlsOp {
    /// c = a*b mod q.
    MulQ,
    /// c = a^2 mod q.
    SquareQ,
    /// c = a/b mod q.
    DivQ,
}

/// `c` is the op's result on the canonical operands `a` and `b`.
pub open spec fn op_result(op: EdBlsOp, a: nat, b: nat, c: nat) -> bool {
    &&& c < q_nat()
    &&& match op {
        EdBlsOp::MulQ => c == fq_mul(a, b),
        EdBlsOp::SquareQ => c == fq_mul(a, a),
        EdBlsOp::DivQ => fq_mul(c, b) == a,
    }
}

/// The verified-identity order (x, y, z) of an op's operands and result:
/// Mul (a, b, c); Square (a, a, c); Div (c, b, a).
pub open spec fn normalize_spec(op: EdBlsOp, a: [u64; 4], b: [u64; 4], c: [u64; 4]) -> ([u64; 4], [u64; 4], [u64; 4]) {
    match op {
        EdBlsOp::MulQ => (a, b, c),
        EdBlsOp::SquareQ => (a, a, c),
        EdBlsOp::DivQ => (c, b, a),
    }
}

/// The advice of one op: computes the result, logs the normalized record
/// (x, y, z, w), and returns the result's canonical limbs. Division needs a
/// nonzero divisor.
pub fn build_advice(op: EdBlsOp, a: Fq, b: Fq, log: &mut FieldOpLog) -> (c: [u64; 4])
    requires
        op == EdBlsOp::DivQ ==> b@ != 0,
    ensures
        op_result(op, a@, b@, val4(c)),
        final(log)@.len() == old(log)@.len() + 1,
        final(log)@.drop_last() == old(log)@,
        (final(log)@.last().0, final(log)@.last().1, final(log)@.last().2) == normalize_spec(
            op,
            a.limbs(),
            b.limbs(),
            c,
        ),
        val4(final(log)@.last().3) == record_quotient(
            normalize_spec(op, a.limbs(), b.limbs(), c).0,
            normalize_spec(op, a.limbs(), b.limbs(), c).1,
            normalize_spec(op, a.limbs(), b.limbs(), c).2,
        ),
{
    let al = a.to_canonical();
    let bl = b.to_canonical();
    match op {
        EdBlsOp::MulQ => {
            let c = a.mul(&b);
            log_record(log, a, b, c);
            c.to_canonical()
        },
        EdBlsOp::SquareQ => {
            let c = a.square();
            log_record(log, a, a, c);
            c.to_canonical()
        },
        EdBlsOp::DivQ => {
            let c = a.div(&b);
            log_record(log, c, b, a);
            c.to_canonical()
        },
    }
}

/// The 128 little-endian bytes of a record's block: x, y, z, w.
pub open spec fn record_bytes(r: LoggedRecord) -> Seq<u8> {
    limbs_le_bytes(r.0@) + limbs_le_bytes(r.1@) + limbs_le_bytes(r.2@) + limbs_le_bytes(r.3@)
}

/// The record blocks of a sequence of records, in order.
pub open spec fn records_bytes(rs: Seq<LoggedRecord>) -> Seq<u8>
    decreases rs.len(),
{
    if rs.len() == 0 {
        Seq::empty()
    } else {
        records_bytes(rs.drop_last()) + record_bytes(rs.last())
    }
}

/// The head pad of a blob of `n` records.
pub open spec fn blob_pad(n: nat) -> nat {
    head_pad_spec(128 * n + 8)
}

/// The padded blob: the head pad's zero bytes, then the record blocks.
pub open spec fn padded_blob(rs: Seq<LoggedRecord>) -> Seq<u8> {
    Seq::new(blob_pad(rs.len()), |i: int| 0u8) + records_bytes(rs)
}

/// Lengths of one block in bytes, before 128 and 128 * k + r share a LEB128 length.
pub proof fn lemma_leb128_len_in_block(k: nat, r1: nat, r2: nat)
    requires
        1 <= r1 < 128,
        1 <= r2 < 128,
    ensures
        leb128_len(128 * k + r1) == leb128_len(128 * k + r2),
{
    if k > 0 {
        assert((128 * k + r1) / 128 == k);
        assert((128 * k + r2) / 128 == k);
    }
}

/// The head pad of `n` records is a fixpoint of the pad rule.
pub proof fn lemma_blob_pad_fixpoint(n: nat)
    requires
        n < 0x200_0000_0000_0000,
    ensures
        head_pad_spec(128 * n + blob_pad(n)) == blob_pad(n),
        118 <= blob_pad(n) <= 127,
{
    crate::bind::lemma_leb128_len_bounds_any(128 * n + 8);
    lemma_leb128_len_in_block(n, 8, blob_pad(n));
}

pub proof fn lemma_limbs_le_bytes_len(s: Seq<u64>)
    ensures
        limbs_le_bytes(s).len() == 8 * s.len(),
    decreases s.len(),
{
    vstd::bytes::lemma_auto_spec_u64_to_from_le_bytes();
    if s.len() > 0 {
        lemma_limbs_le_bytes_len(s.drop_last());
    }
}

pub proof fn lemma_records_bytes_len(rs: Seq<LoggedRecord>)
    ensures
        records_bytes(rs).len() == 128 * rs.len(),
    decreases rs.len(),
{
    if rs.len() > 0 {
        lemma_records_bytes_len(rs.drop_last());
        let r = rs.last();
        lemma_limbs_le_bytes_len(r.0@);
        lemma_limbs_le_bytes_len(r.1@);
        lemma_limbs_le_bytes_len(r.2@);
        lemma_limbs_le_bytes_len(r.3@);
    }
}

/// Padded byte blob for the guest's untrusted-advice input: a head pad of
/// `128 − varint_size(total_len)` zero bytes, then the 128-byte record
/// blocks, so postcard's length prefix plus the pad total exactly 128 bytes
/// and every block lands on a 16-word boundary starting at region word 16.
pub fn build_record_blob_padded(records: &[LoggedRecord]) -> (bytes: Vec<u8>)
    requires
        records.len() * 128 + 256 <= usize::MAX,
    ensures
        bytes@ == padded_blob(records@),
        satisfies_pad_rule(bytes@.len()),
        (bytes@.len() - head_pad_spec(bytes@.len())) / 128 == records.len(),
{
    let blocks = records.len() * RECORD_BYTES;
    let mut pad = head_pad(blocks + 8);
    proof {
        lemma_blob_pad_fixpoint(records.len() as nat);
    }
    loop
        invariant_except_break
            pad == blob_pad(records.len() as nat),
            blocks == 128 * records.len(),
            head_pad_spec(128 * (records.len() as nat) + blob_pad(records.len() as nat)) == blob_pad(records.len() as nat),
            118 <= pad <= 127,
        ensures
            pad == blob_pad(records.len() as nat),
        decreases pad,
    {
        let candidate = head_pad(blocks + pad);
        if candidate == pad {
            break;
        }
        pad = candidate;
    }
    let mut bytes: Vec<u8> = Vec::new();
    let mut i: usize = 0;
    while i < pad
        invariant
            i <= pad,
            bytes@ == Seq::new(i as nat, |k: int| 0u8),
        decreases pad - i,
    {
        bytes.push(0);
        i += 1;
        assert(bytes@ =~= Seq::new(i as nat, |k: int| 0u8));
    }
    let ghost head = bytes@;
    for j in 0..records.len()
        invariant
            bytes@ == head + records_bytes(records@.subrange(0, j as int)),
    {
        let r = &records[j];
        let ghost before = bytes@;
        push_limbs_le_bytes(&mut bytes, &r.0);
        push_limbs_le_bytes(&mut bytes, &r.1);
        push_limbs_le_bytes(&mut bytes, &r.2);
        push_limbs_le_bytes(&mut bytes, &r.3);
        proof {
            let s = records@.subrange(0, j + 1);
            assert(s.drop_last() =~= records@.subrange(0, j as int));
            assert(s.last() == records@[j as int]);
            assert(bytes@ =~= before + record_bytes(records@[j as int]));
        }
    }
    proof {
        assert(records@.subrange(0, records.len() as int) =~= records@);
        lemma_records_bytes_len(records@);
        lemma_blob_pad_fixpoint(records.len() as nat);
        assert(bytes@.len() == blob_pad(records.len() as nat) + 128 * records.len());
    }
    bytes
}


/// The (x, y, z) words an op welds against its block.
pub type WeldedOp = ([u64; 4], [u64; 4], [u64; 4]);

/// The weld state after welding `ops` in order, starting from `s`.
pub open spec fn weld_all(s: WeldState, ops: Seq<WeldedOp>) -> WeldState
    decreases ops.len(),
{
    if ops.len() == 0 {
        s
    } else {
        let o = ops.last();
        weld_spec(weld_all(s, ops.drop_last()), o.0, o.1, o.2)
    }
}

/// The op welds exactly the record's x, y and z.
pub open spec fn record_matches(r: LoggedRecord, o: WeldedOp) -> bool {
    o.0 == r.0 && o.1 == r.1 && o.2 == r.2
}

/// Word `k` (order x0..3, y0..3, z0..3, w0..3) of a logged record.
pub open spec fn logged_word(r: LoggedRecord, k: int) -> u64 {
    if k < 4 {
        r.0[k]
    } else if k < 8 {
        r.1[k - 4]
    } else if k < 12 {
        r.2[k - 8]
    } else {
        r.3[k - 12]
    }
}

proof fn lemma_limbs_le_bytes_word(s: Seq<u64>, j: int)
    requires
        0 <= j < s.len(),
    ensures
        limbs_le_bytes(s).subrange(8 * j, 8 * j + 8) == spec_u64_to_le_bytes(s[j]),
    decreases s.len(),
{
    vstd::bytes::lemma_auto_spec_u64_to_from_le_bytes();
    lemma_limbs_le_bytes_len(s.drop_last());
    let a = limbs_le_bytes(s.drop_last());
    let b = spec_u64_to_le_bytes(s.last());
    if j == s.len() - 1 {
        assert((a + b).subrange(8 * j, 8 * j + 8) =~= b);
    } else {
        lemma_limbs_le_bytes_word(s.drop_last(), j);
        assert((a + b).subrange(8 * j, 8 * j + 8) =~= a.subrange(8 * j, 8 * j + 8));
    }
}

proof fn lemma_records_bytes_block(rs: Seq<LoggedRecord>, i: int)
    requires
        0 <= i < rs.len(),
    ensures
        records_bytes(rs).subrange(128 * i, 128 * i + 128) == record_bytes(rs[i]),
    decreases rs.len(),
{
    lemma_records_bytes_len(rs.drop_last());
    let r = rs.last();
    lemma_limbs_le_bytes_len(r.0@);
    lemma_limbs_le_bytes_len(r.1@);
    lemma_limbs_le_bytes_len(r.2@);
    lemma_limbs_le_bytes_len(r.3@);
    let a = records_bytes(rs.drop_last());
    let b = record_bytes(r);
    if i == rs.len() - 1 {
        assert((a + b).subrange(128 * i, 128 * i + 128) =~= b);
    } else {
        lemma_records_bytes_block(rs.drop_last(), i);
        assert((a + b).subrange(128 * i, 128 * i + 128) =~= a.subrange(128 * i, 128 * i + 128));
    }
}

/// Word `k` of block `i` of the record region is word `k` of record `i`.
proof fn lemma_region_word(rs: Seq<LoggedRecord>, i: int, k: int)
    requires
        0 <= i < rs.len(),
        0 <= k < 16,
    ensures
        region_word(records_bytes(rs), 16 * i + k) == logged_word(rs[i], k),
{
    vstd::bytes::lemma_auto_spec_u64_to_from_le_bytes();
    lemma_records_bytes_len(rs);
    lemma_records_bytes_block(rs, i);
    let r = rs[i];
    let region = records_bytes(rs);
    let blk = record_bytes(r);
    lemma_limbs_le_bytes_len(r.0@);
    lemma_limbs_le_bytes_len(r.1@);
    lemma_limbs_le_bytes_len(r.2@);
    lemma_limbs_le_bytes_len(r.3@);
    assert(region.subrange(8 * (16 * i + k), 8 * (16 * i + k) + 8) =~= blk.subrange(8 * k, 8 * k + 8));
    let lx = limbs_le_bytes(r.0@);
    let ly = limbs_le_bytes(r.1@);
    let lz = limbs_le_bytes(r.2@);
    let lw = limbs_le_bytes(r.3@);
    if k < 4 {
        lemma_limbs_le_bytes_word(r.0@, k);
        assert(blk.subrange(8 * k, 8 * k + 8) =~= lx.subrange(8 * k, 8 * k + 8));
    } else if k < 8 {
        lemma_limbs_le_bytes_word(r.1@, k - 4);
        assert(blk.subrange(8 * k, 8 * k + 8) =~= ly.subrange(8 * (k - 4), 8 * (k - 4) + 8));
    } else if k < 12 {
        lemma_limbs_le_bytes_word(r.2@, k - 8);
        assert(blk.subrange(8 * k, 8 * k + 8) =~= lz.subrange(8 * (k - 8), 8 * (k - 8) + 8));
    } else {
        lemma_limbs_le_bytes_word(r.3@, k - 12);
        assert(blk.subrange(8 * k, 8 * k + 8) =~= lw.subrange(8 * (k - 12), 8 * (k - 12) + 8));
    }
}

/// The block of record `i` matches an op exactly when the op welds that
/// record's x, y and z.
proof fn lemma_block_matches_record(rs: Seq<LoggedRecord>, i: int, o: WeldedOp)
    requires
        0 <= i < rs.len(),
    ensures
        block_matches(records_bytes(rs), (128 * i) as nat, o.0, o.1, o.2) <==> record_matches(rs[i], o),
{
    let region = records_bytes(rs);
    let r = rs[i];
    assert((128 * i) as nat / 8 == 16 * i);
    assert forall|k: int| 0 <= k < 16 implies region_word(region, 16 * i + k) == logged_word(r, k) by {
        lemma_region_word(rs, i, k);
    }
    if block_matches(region, (128 * i) as nat, o.0, o.1, o.2) {
        assert forall|k: int| 0 <= k < 4 implies o.0[k] == r.0[k] by {
            assert(region_word(region, 16 * i + k) == logged_word(r, k));
        }
        assert forall|k: int| 0 <= k < 4 implies o.1[k] == r.1[k] by {
            assert(region_word(region, 16 * i + 4 + k) == logged_word(r, 4 + k));
        }
        assert forall|k: int| 0 <= k < 4 implies o.2[k] == r.2[k] by {
            assert(region_word(region, 16 * i + 8 + k) == logged_word(r, 8 + k));
        }
        assert(o.0 =~= r.0);
        assert(o.1 =~= r.1);
        assert(o.2 =~= r.2);
    }
    if record_matches(r, o) {
        assert forall|k: int| 0 <= k < 4 implies region_word(region, (128 * i) as nat / 8 + k) == o.0[k]
            && region_word(region, (128 * i) as nat / 8 + 4 + k) == o.1[k] && region_word(
            region,
            (128 * i) as nat / 8 + 8 + k,
        ) == o.2[k] by {
            assert(region_word(region, 16 * i + k) == logged_word(r, k));
            assert(region_word(region, 16 * i + (4 + k)) == logged_word(r, 4 + k));
            assert(region_word(region, 16 * i + (8 + k)) == logged_word(r, 8 + k));
        }
    }
}

/// Welding `ops` against the record region of `rs` moves the cursor one
/// block per op and spoils exactly when some op has no block or differs
/// from its block's record.
proof fn lemma_weld_all_region(rs: Seq<LoggedRecord>, ops: Seq<WeldedOp>)
    ensures
        weld_all((Some(records_bytes(rs)), 0, false), ops) == (
            Some(records_bytes(rs)),
            128 * ops.len(),
            exists|i: int| 0 <= i < ops.len() && (i >= rs.len() || !record_matches(rs[i], #[trigger] ops[i])),
        ),
    decreases ops.len(),
{
    lemma_records_bytes_len(rs);
    if ops.len() > 0 {
        let prev = ops.drop_last();
        lemma_weld_all_region(rs, prev);
        let k = prev.len() as int;
        let o = ops.last();
        if k < rs.len() {
            lemma_block_matches_record(rs, k, o);
        }
        let bad_prev = exists|i: int| 0 <= i < prev.len() && (i >= rs.len() || !record_matches(rs[i], #[trigger] prev[i]));
        let bad = exists|i: int| 0 <= i < ops.len() && (i >= rs.len() || !record_matches(rs[i], #[trigger] ops[i]));
        let bad_last = k >= rs.len() || !record_matches(rs[k], o);
        assert(ops[k] == o);
        if bad {
            let i = choose|i: int| 0 <= i < ops.len() && (i >= rs.len() || !record_matches(rs[i], #[trigger] ops[i]));
            if i < k {
                assert(prev[i] == ops[i]);
            }
            assert(bad_prev || bad_last);
        }
        if bad_prev {
            let i = choose|i: int| 0 <= i < prev.len() && (i >= rs.len() || !record_matches(rs[i], #[trigger] prev[i]));
            assert(prev[i] == ops[i]);
            assert(bad);
        }
        if bad_last {
            assert(bad);
        }
    }
}

/// The weld accepts a run exactly when it welds, in order, the x, y and z
/// of every record in the padded blob and nothing more: registering the
/// blob built from `rs`, welding `ops` and finalizing leaves the proof
/// unspoiled if and only if `ops` and `rs` have the same length and each op
/// matches its record.
pub proof fn lemma_weld_accepts_exactly_the_logged_ops(rs: Seq<LoggedRecord>, ops: Seq<WeldedOp>)
    requires
        rs.len() < 0x200_0000_0000_0000,
    ensures
        !finalize_spec(weld_all(init_spec((None, 0, false), padded_blob(rs)), ops)).2 <==> (ops.len()
            == rs.len() && forall|i: int| 0 <= i < ops.len() ==> record_matches(rs[i], #[trigger] ops[i])),
{
    let blob = padded_blob(rs);
    let pad = blob_pad(rs.len());
    lemma_blob_pad_fixpoint(rs.len());
    lemma_records_bytes_len(rs);
    assert(blob.len() == pad + 128 * rs.len());
    assert(head_pad_spec(blob.len()) == pad);
    assert(satisfies_pad_rule(blob.len()));
    assert(blob.subrange(pad as int, blob.len() as int) =~= records_bytes(rs));
    assert(init_spec((None, 0, false), blob) == (Some(records_bytes(rs)), 0nat, false));
    lemma_weld_all_region(rs, ops);
    let bad = exists|i: int| 0 <= i < ops.len() && (i >= rs.len() || !record_matches(rs[i], #[trigger] ops[i]));
    if ops.len() == rs.len() && forall|i: int| 0 <= i < ops.len() ==> record_matches(rs[i], #[trigger] ops[i]) {
        assert(!bad);
    }
    if !bad && 128 * ops.len() == 128 * rs.len() {
        assert forall|i: int| 0 <= i < ops.len() implies record_matches(rs[i], #[trigger] ops[i]) by {
            assert(!(i >= rs.len() || !record_matches(rs[i], ops[i])));
        }
    }
}

/// The record count is recovered from the region's own header word: word 0
/// of `varint(len) ‖ blob`, for the padded blob of `rs`, decodes to the
/// blob's length and varint size, and the whole blocks after the head pad
/// that the size fixes number exactly `rs.len()`.
pub proof fn lemma_header_word_counts_the_records(rs: Seq<LoggedRecord>)
    requires
        rs.len() < 0x2_0000_0000_0000,
    ensures
        decode_header_spec(region_header_word(padded_blob(rs))) == Ok::<(usize, usize), &'static str>(
            (padded_blob(rs).len() as usize, leb128_len(padded_blob(rs).len()) as usize),
        ),
        (padded_blob(rs).len() - (128 - leb128_len(padded_blob(rs).len()))) / 128 == rs.len(),
{
    let blob = padded_blob(rs);
    let pad = blob_pad(rs.len());
    lemma_blob_pad_fixpoint(rs.len());
    lemma_records_bytes_len(rs);
    assert(blob.len() == pad + 128 * rs.len());
    assert forall|i: int| 0 <= i < 8 implies blob[i] == 0 by {
        assert(i < pad);
    }
    lemma_region_header_decodes(blob);
    assert(head_pad_spec(blob.len()) == pad);
    crate::bind::lemma_leb128_len_bounds_any(blob.len());
    assert(128 - leb128_len(blob.len()) == pad);
    assert((blob.len() - pad) / 128 == rs.len()) by {
        assert(blob.len() - pad == 128 * rs.len());
    }
}

proof fn lemma_weld_all_cursor(s: WeldState, ops: Seq<WeldedOp>)
    requires
        s.0 is Some,
    ensures
        weld_all(s, ops).0 == s.0,
        weld_all(s, ops).1 == s.1 + 128 * ops.len(),
    decreases ops.len(),
{
    if ops.len() > 0 {
        lemma_weld_all_cursor(s, ops.drop_last());
    }
}

/// For any blob and any run: after `init` and `k` welds the cursor sits at
/// byte `128 * k` of the registered region, and `finalize` spoils the proof
/// exactly when `128 * k` differs from the region's length (a block left
/// unwelded, or more welds than blocks); it changes nothing else.
pub proof fn lemma_finalize_spoils_iff_count_differs(s: WeldState, blob: Seq<u8>, ops: Seq<WeldedOp>)
    ensures
        weld_all(init_spec(s, blob), ops).0 == init_spec(s, blob).0,
        weld_all(init_spec(s, blob), ops).1 == 128 * ops.len(),
        finalize_spec(weld_all(init_spec(s, blob), ops)) == (
            weld_all(init_spec(s, blob), ops).0,
            weld_all(init_spec(s, blob), ops).1,
            weld_all(init_spec(s, blob), ops).2 || 128 * ops.len() != init_spec(s, blob).0.unwrap().len(),
        ),
{
    lemma_weld_all_cursor(init_spec(s, blob), ops);
}

} // verus!
