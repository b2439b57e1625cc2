//! The weld: every advice-backed field op is tied to its 16-word record block
//! `[x, y, z, w]` in the committed untrusted-advice region.
//!
//! Postcard frames the record blob as `varint(len) ‖ bytes`, and the blob
//! carries a deterministic head pad: `pad = 128 − varint_size(len)`, so the
//! first record block starts at byte 128 = region word 16, always. `init`
//! recomputes the pad rule from `len` alone and spoils on violation; `weld`
//! compares the 12 x/y/z words of the current block against the operand and
//! result words the op used and spoils on mismatch (w is existential, never
//! compared); `finalize` spoils unless every block was welded. Block order is
//! op execution order.
use vstd::arithmetic::power2::{lemma2_to64, lemma_pow2_adds, lemma_pow2_pos, pow2};
use vstd::bytes::{spec_u64_from_le_bytes, spec_u64_to_le_bytes, u64_from_le_bytes, u64_to_le_bytes};
use vstd::prelude::*;
use vstd::slice::slice_subrange;

verus! {

/// Bytes per record block: 4 values × 4 words × 8 bytes.
pub const RECORD_BYTES: usize = 128;

/// The number of bytes of the LEB128 encoding of `n`: one per started 7-bit group.
pub open spec fn leb128_len(n: nat) -> nat
    decreases n,
{
    if n < 128 {
        1
    } else {
        1 + leb128_len(n / 128)
    }
}

/// 128^k.
pub open spec fn pow128(k: nat) -> nat
    decreases k,
{
    if k == 0 {
        1
    } else {
        128 * pow128((k - 1) as nat)
    }
}

/// A number below 128^k has at most `k` LEB128 bytes.
pub proof fn lemma_leb128_len_le(n: nat, k: nat)
    requires
        k >= 1,
        n < pow128(k),
    ensures
        1 <= leb128_len(n) <= k,
    decreases k,
{
    if n >= 128 {
        assert(k >= 2) by {
            if k == 1 {
                assert(pow128(1) == 128 * pow128(0));
            }
        }
        assert(pow128(k) == 128 * pow128((k - 1) as nat));
        lemma_leb128_len_le(n / 128, (k - 1) as nat);
    }
}

/// Every LEB128 length is at least one byte and, below 2^70, at most ten.
pub proof fn lemma_leb128_len_bounds_any(n: nat)
    ensures
        leb128_len(n) >= 1,
        n < 0x40_0000_0000_0000_0000 ==> leb128_len(n) <= 10,
{
    if n < 0x40_0000_0000_0000_0000 {
        reveal_with_fuel(pow128, 11);
        assert(pow128(10) == 0x40_0000_0000_0000_0000);
        lemma_leb128_len_le(n, 10);
    } else {
        assert(n >= 128);
    }
}

pub proof fn lemma_leb128_len_bounds(n: nat)
    requires
        n < 0x1_0000_0000_0000_0000,
    ensures
        1 <= leb128_len(n) <= 10,
{
    reveal_with_fuel(pow128, 11);
    assert(pow128(10) == 0x40_0000_0000_0000_0000);
    lemma_leb128_len_le(n, 10);
}

/// Postcard varint (LEB128) size of a `Vec` length prefix.
pub fn varint_size(len: usize) -> (r: usize)
    ensures
        r == leb128_len(len as nat),
        1 <= r <= 10,
{
    proof {
        lemma_leb128_len_bounds(len as nat);
    }
    let mut v = len;
    let mut n: usize = 1;
    while v >= 0x80
        invariant
            n + leb128_len(v as nat) == leb128_len(len as nat) + 1,
            1 <= n <= leb128_len(len as nat),
            leb128_len(len as nat) <= 10,
        decreases v,
    {
        v = v / 128;
        n = n + 1;
    }
    n
}

/// The head pad for a blob of `len` bytes.
pub open spec fn head_pad_spec(len: nat) -> nat {
    (128 - leb128_len(len)) as nat
}

/// Head pad enforced inside the blob so blocks start at region byte 128
/// (word 16 — a 16-word boundary).
pub fn head_pad(len: usize) -> (r: usize)
    ensures
        r == head_pad_spec(len as nat),
        118 <= r <= 127,
{
    RECORD_BYTES - varint_size(len)
}

/// The pad rule: the blob holds its head pad and a whole number of blocks.
pub open spec fn satisfies_pad_rule(len: nat) -> bool {
    len >= head_pad_spec(len) && (len - head_pad_spec(len)) % 128 == 0
}

/// No-op without the binding build: the blob is not registered.
pub fn init(_blob: &[u8]) {
}

/// No-op without the binding build: nothing is compared.
pub fn weld(_x: &[u64; 4], _y: &[u64; 4], _z: &[u64; 4]) {
}

/// No-op without the binding build.
pub fn finalize() {
}

/// Always zero without the binding build.
pub fn welded_count() -> (r: usize)
    ensures
        r == 0,
{
    0
}

/// Word `idx` of a block region, read little-endian.
pub open spec fn region_word(region: Seq<u8>, idx: int) -> u64 {
    spec_u64_from_le_bytes(region.subrange(8 * idx, 8 * idx + 8))
}

/// The block at byte `cursor` holds `x`, `y`, `z` in its first 12 words.
pub open spec fn block_matches(region: Seq<u8>, cursor: nat, x: [u64; 4], y: [u64; 4], z: [u64; 4]) -> bool {
    forall|i: int|
        0 <= i < 4 ==> region_word(region, cursor / 8 + i) == x[i] && region_word(
            region,
            cursor / 8 + 4 + i,
        ) == y[i] && region_word(region, cursor / 8 + 8 + i) == z[i]
}

/// The state of the weld: the registered block region (after the head pad),
/// the byte offset of the next block, and whether the proof was spoiled.
pub struct WeldBinder {
    region: Option<Vec<u8>>,
    cursor: usize,
    spoiled: bool,
}

/// The spec view of a weld: region, cursor, spoiled.
pub type WeldState = (Option<Seq<u8>>, nat, bool);

/// The state after registering `blob`: its block region, a fresh cursor, and
/// a spoil when the blob violates the pad rule. A blob shorter than its pad
/// registers an empty region.
pub open spec fn init_spec(s: WeldState, blob: Seq<u8>) -> WeldState {
    let pad = head_pad_spec(blob.len());
    let region = if blob.len() >= pad {
        blob.subrange(pad as int, blob.len() as int)
    } else {
        Seq::empty()
    };
    (Some(region), 0, s.2 || !satisfies_pad_rule(blob.len()))
}

/// The state after welding one op: no-op before `init`; otherwise spoiled
/// when no whole block remains at the cursor or the block's x, y, z words
/// differ from the op's, and the cursor moves to the next block.
pub open spec fn weld_spec(s: WeldState, x: [u64; 4], y: [u64; 4], z: [u64; 4]) -> WeldState {
    match s.0 {
        None => s,
        Some(region) => (
            Some(region),
            s.1 + 128,
            s.2 || s.1 + 128 > region.len() || !block_matches(region, s.1, x, y, z),
        ),
    }
}

/// The state at guest exit: spoiled unless every block was welded.
pub open spec fn finalize_spec(s: WeldState) -> WeldState {
    match s.0 {
        None => s,
        Some(region) => (s.0, s.1, s.2 || s.1 != region.len()),
    }
}

impl View for WeldBinder {
    type V = WeldState;

    closed spec fn view(&self) -> WeldState {
        (
            match self.region {
                None => None,
                Some(r) => Some(r@),
            },
            self.cursor as nat,
            self.spoiled,
        )
    }
}

/// Reads word `idx` of a region.
fn block_word(region: &Vec<u8>, idx: usize) -> (r: u64)
    requires
        8 * idx + 8 <= region@.len(),
    ensures
        r == region_word(region@, idx as int),
{
    let len = region.len();
    assert(8 * idx + 8 <= len);
    u64_from_le_bytes(slice_subrange(region.as_slice(), 8 * idx, 8 * idx + 8))
}

impl WeldBinder {
    /// The weld before `init`: every call is a no-op.
    pub fn new() -> (b: WeldBinder)
        ensures
            b@ == (None::<Seq<u8>>, 0nat, false),
    {
        WeldBinder { region: None, cursor: 0, spoiled: false }
    }

    /// Spoil the proof: no valid proof of this run exists any more.
    pub fn spoil(&mut self)
        ensures
            final(self)@ == (old(self)@.0, old(self)@.1, true),
    {
        self.spoiled = true;
    }

    /// Whether the proof was spoiled.
    pub fn is_spoiled(&self) -> (r: bool)
        ensures
            r == self@.2,
    {
        self.spoiled
    }

    /// Register the record blob (the full deserialized `Vec<u8>`, pad
    /// included). Spoils unless `blob.len()` satisfies the pad rule.
    pub fn init(&mut self, blob: &[u8])
        ensures
            final(self)@ == init_spec(old(self)@, blob@),
    {
        let pad = head_pad(blob.len());
        let valid = blob.len() >= pad && (blob.len() - pad) % RECORD_BYTES == 0;
        if !valid {
            self.spoiled = true;
        }
        let region: Vec<u8> = if blob.len() >= pad {
            vstd::slice::slice_to_vec(slice_subrange(blob, pad, blob.len()))
        } else {
            Vec::new()
        };
        self.region = Some(region);
        self.cursor = 0;
    }

    /// Compare (x, y, z) against the current block; advance the cursor.
    /// No-op before `init`.
    pub fn weld(&mut self, x: &[u64; 4], y: &[u64; 4], z: &[u64; 4])
        requires
            old(self)@.1 + 128 <= usize::MAX,
        ensures
            final(self)@ == weld_spec(old(self)@, *x, *y, *z),
    {
        match &self.region {
            None => {
                return;
            },
            Some(region) => {
                let base = self.cursor;
                if base + RECORD_BYTES > region.len() {
                    self.spoiled = true;
                } else {
                    let mut ok = true;
                    for i in 0..4usize
                        invariant
                            base + 128 <= region@.len(),
                            ok == (forall|k: int|
                                0 <= k < i ==> region_word(region@, base as nat / 8 + k) == x[k]
                                    && region_word(region@, base as nat / 8 + 4 + k) == y[k]
                                    && region_word(region@, base as nat / 8 + 8 + k) == z[k]),
                    {
                        let w = base / 8;
                        if block_word(region, w + i) != x[i] || block_word(region, w + 4 + i) != y[i]
                            || block_word(region, w + 8 + i) != z[i] {
                            ok = false;
                        }
                    }
                    if !ok {
                        self.spoiled = true;
                    }
                }
            },
        }
        self.cursor = self.cursor + RECORD_BYTES;
    }

    /// Spoil unless every block was welded (call at guest exit). No-op
    /// before `init`.
    pub fn finalize(&mut self)
        ensures
            final(self)@ == finalize_spec(old(self)@),
    {
        match &self.region {
            None => {},
            Some(region) => {
                if self.cursor != region.len() {
                    self.spoiled = true;
                }
            },
        }
    }

    /// Number of blocks welded so far.
    pub fn welded_count(&self) -> (r: usize)
        ensures
            r == self@.1 / 128,
    {
        self.cursor / RECORD_BYTES
    }
}


/// Error: no byte of word 0 ends the varint.
pub const HEADER_UNTERMINATED: &'static str = "header varint does not terminate within word 0";

/// Error: word 0 holds non-zero bytes after the varint.
pub const HEADER_TRAILING_BYTES: &'static str = "header word carries non-zero bytes after the varint";

/// The index of the first byte at or after `i` without the continuation bit.
pub open spec fn leb_terminator(bytes: Seq<u8>, i: nat) -> Option<nat>
    decreases bytes.len() - i,
{
    if i >= bytes.len() {
        None
    } else if bytes[i as int] < 0x80 {
        Some(i)
    } else {
        leb_terminator(bytes, i + 1)
    }
}

/// The value of the low 7 bits of the first `n` bytes, little-endian.
pub open spec fn leb_value(bytes: Seq<u8>, n: nat) -> nat
    decreases n,
{
    if n == 0 {
        0
    } else {
        leb_value(bytes, (n - 1) as nat) + (bytes[n - 1] % 128) as nat * pow2((7 * (n - 1)) as nat)
    }
}

/// Every byte from index `i` on is zero.
pub open spec fn zero_from(bytes: Seq<u8>, i: nat) -> bool {
    forall|j: int| i <= j < bytes.len() ==> bytes[j] == 0
}

/// What `decode_header_word` returns for a word: the varint's value and
/// byte count, or the reason the word is not a header.
pub open spec fn decode_header_spec(word: u64) -> Result<(usize, usize), &'static str> {
    let bytes = spec_u64_to_le_bytes(word);
    match leb_terminator(bytes, 0) {
        None => Err(HEADER_UNTERMINATED),
        Some(t) => if zero_from(bytes, t + 1) {
            Ok((leb_value(bytes, t + 1) as usize, (t + 1) as usize))
        } else {
            Err(HEADER_TRAILING_BYTES)
        },
    }
}

proof fn lemma_leb_terminator_skip(bytes: Seq<u8>, i: nat)
    requires
        forall|j: int| 0 <= j < i ==> bytes[j] >= 0x80,
        i <= bytes.len(),
    ensures
        leb_terminator(bytes, 0) == leb_terminator(bytes, i),
    decreases i,
{
    if i > 0 {
        lemma_leb_terminator_skip(bytes, (i - 1) as nat);
    }
}

/// Decode a postcard/LEB128 varint from the little-endian bytes of the
/// region's word 0; the remaining bytes must be zero (head pad).
pub fn decode_header_word(word: u64) -> (r: Result<(usize, usize), &'static str>)
    ensures
        r == decode_header_spec(word),
{
    let bytes = u64_to_le_bytes(word);
    let mut len: u64 = 0;
    let mut size: usize = 0;
    proof {
        lemma2_to64();
    }
    loop
        invariant_except_break
            size <= 8,
            bytes@ == spec_u64_to_le_bytes(word),
            bytes@.len() == 8,
            len == leb_value(bytes@, size as nat),
            len < pow2((7 * size) as nat),
            forall|j: int| 0 <= j < size ==> bytes@[j] >= 0x80,
        ensures
            size <= 8,
            bytes@ == spec_u64_to_le_bytes(word),
            bytes@.len() == 8,
            size >= 1,
            leb_terminator(bytes@, 0) == Some((size - 1) as nat),
            len == leb_value(bytes@, size as nat),
        decreases 8 - size,
    {
        if size >= 8 {
            proof {
                lemma_leb_terminator_skip(bytes@, 8);
            }
            return Err(HEADER_UNTERMINATED);
        }
        let b = bytes[size];
        let c: u64 = (b & 0x7f) as u64;
        let s: u64 = 7 * size as u64;
        proof {
            lemma2_to64();
            assert(b & 0x7f == b % 128) by (bit_vector);
            lemma_pow2_pos(s as nat);
            lemma_pow2_adds(s as nat, 7);
            let p = pow2(s as nat);
            assert(c * p <= 127 * p) by (nonlinear_arith)
                requires
                    c <= 127,
                    p > 0,
            ;
            assert(len + c * p < pow2((s + 7) as nat));
            vstd::arithmetic::power2::lemma_pow2_strictly_increases((s + 7) as nat, 64);
            vstd::arithmetic::power2::lemma2_to64_rest();
            vstd::bits::lemma_u64_shl_is_mul(c, s);
            vstd::bits::lemma_u64_shl_is_mul(1, s);
            assert(b & 0x80 == 0 <==> b < 0x80) by (bit_vector);
            lemma_leb_terminator_skip(bytes@, size as nat);
            assert(len | (c << s) == len + (c << s)) by (bit_vector)
                requires
                    s <= 49,
                    len < (1u64 << s),
                    c < 128,
            ;
        }
        len |= c << s;
        size += 1;
        if b & 0x80 == 0 {
            break;
        }
    }
    let mut j = size;
    while j < 8
        invariant
            size <= j <= 8,
            size >= 1,
            bytes@.len() == 8,
            bytes@ == spec_u64_to_le_bytes(word),
            leb_terminator(bytes@, 0) == Some((size - 1) as nat),
            forall|k: int| size <= k < j ==> bytes@[k] == 0,
        decreases 8 - j,
    {
        if bytes[j] != 0 {
            return Err(HEADER_TRAILING_BYTES);
        }
        j += 1;
    }
    Ok((len as usize, size))
}

/// The LEB128 encoding of `n`: seven bits per byte, least significant group
/// first, the continuation bit set on every byte but the last.
pub open spec fn leb128_bytes(n: nat) -> Seq<u8>
    decreases n,
{
    if n < 128 {
        seq![n as u8]
    } else {
        seq![(n % 128 + 128) as u8] + leb128_bytes(n / 128)
    }
}

/// Word 0 of the region postcard writes for `blob`: the first eight bytes of
/// `varint(blob.len()) ‖ blob`, read little-endian.
pub open spec fn region_header_word(blob: Seq<u8>) -> u64 {
    spec_u64_from_le_bytes((leb128_bytes(blob.len()) + blob).subrange(0, 8))
}

proof fn lemma_leb_value_prefix(a: Seq<u8>, b: Seq<u8>, n: nat)
    requires
        n <= a.len(),
        n <= b.len(),
        forall|i: int| 0 <= i < n ==> a[i] == b[i],
    ensures
        leb_value(a, n) == leb_value(b, n),
    decreases n,
{
    if n > 0 {
        lemma_leb_value_prefix(a, b, (n - 1) as nat);
    }
}

proof fn lemma_leb_value_cons(b: u8, r: Seq<u8>, m: nat)
    requires
        m <= r.len(),
    ensures
        leb_value(seq![b] + r, m + 1) == (b % 128) as nat + 128 * leb_value(r, m),
    decreases m,
{
    let x = seq![b] + r;
    if m == 0 {
        assert(x[0] == b);
        assert(pow2(0) == 1) by {
            lemma2_to64();
        }
        assert(leb_value(x, 1) == leb_value(x, 0) + (x[0] % 128) as nat * pow2(0));
    } else {
        lemma_leb_value_cons(b, r, (m - 1) as nat);
        let p = pow2((7 * (m - 1)) as nat);
        assert(pow2((7 * m) as nat) == 128 * p) by {
            lemma2_to64();
            lemma_pow2_adds((7 * (m - 1)) as nat, 7);
        }
        assert(x[m as int] == r[m - 1]);
        let c = (r[m - 1] % 128) as nat;
        assert(c * (128 * p) == 128 * (c * p)) by (nonlinear_arith);
        assert(leb_value(x, m + 1) == leb_value(x, m) + c * pow2((7 * m) as nat));
        assert(leb_value(r, m) == leb_value(r, (m - 1) as nat) + c * p);
    }
}

/// The encoding has `leb128_len(n)` bytes, every byte but the last carries
/// the continuation bit, and the low seven bits of the bytes spell `n`.
proof fn lemma_leb128_bytes(n: nat)
    ensures
        leb128_bytes(n).len() == leb128_len(n),
        forall|i: int| 0 <= i < leb128_bytes(n).len() - 1 ==> #[trigger] leb128_bytes(n)[i] >= 0x80,
        leb128_bytes(n)[leb128_bytes(n).len() - 1] < 0x80,
        leb_value(leb128_bytes(n), leb128_len(n)) == n,
    decreases n,
{
    if n < 128 {
        lemma_leb_value_cons(n as u8, Seq::empty(), 0);
        assert(leb128_bytes(n) =~= seq![n as u8] + Seq::<u8>::empty());
    } else {
        let r = leb128_bytes(n / 128);
        lemma_leb128_bytes(n / 128);
        let b = (n % 128 + 128) as u8;
        assert(leb128_bytes(n) == seq![b] + r);
        lemma_leb_value_cons(b, r, leb128_len(n / 128));
        assert((b % 128) as nat == n % 128);
        assert forall|i: int| 0 <= i < leb128_bytes(n).len() - 1 implies #[trigger] leb128_bytes(n)[i] >= 0x80 by {
            if i > 0 {
                assert(leb128_bytes(n)[i] == r[i - 1]);
            }
        }
    }
}

/// The header word of a blob that opens with eight zero bytes decodes to
/// the blob's length and the byte count of its varint, for every length the
/// eight-byte header word can hold (below 2^56).
pub proof fn lemma_region_header_decodes(blob: Seq<u8>)
    requires
        8 <= blob.len() < 0x100_0000_0000_0000,
        forall|i: int| 0 <= i < 8 ==> blob[i] == 0,
    ensures
        decode_header_spec(region_header_word(blob)) == Ok::<(usize, usize), &'static str>(
            (blob.len() as usize, leb128_len(blob.len()) as usize),
        ),
{
    let n = blob.len();
    let enc = leb128_bytes(n);
    lemma_leb128_bytes(n);
    assert(pow128(8) == 0x100_0000_0000_0000) by {
        reveal_with_fuel(pow128, 9);
    }
    lemma_leb128_len_le(n, 8);
    let k = leb128_len(n);
    let hb = (enc + blob).subrange(0, 8);
    vstd::bytes::lemma_auto_spec_u64_to_from_le_bytes();
    assert(spec_u64_to_le_bytes(spec_u64_from_le_bytes(hb)) == hb);
    assert forall|j: int| 0 <= j < k - 1 implies hb[j] >= 0x80 by {
        assert(hb[j] == enc[j]);
    }
    assert(hb[k - 1] == enc[k - 1]);
    lemma_leb_terminator_skip(hb, (k - 1) as nat);
    assert(leb_terminator(hb, 0) == Some((k - 1) as nat));
    assert forall|j: int| k <= j < hb.len() implies hb[j] == 0 by {
        assert(hb[j] == blob[j - k]);
    }
    assert(zero_from(hb, k));
    lemma_leb_value_prefix(hb, enc, k);
}

/// Words per record row of the region: one 16-word block.
pub const RECORD_WORDS: usize = 16;

/// Error: the header's length breaks the pad rule.
pub const PAD_RULE_VIOLATED: &'static str = "blob length violates the pad rule";

/// Error: a word of the head pad after the header word is not zero.
pub const HEAD_PAD_NOT_ZERO: &'static str = "head-pad words are not zero";

/// Error: the blocks the header counts run past the region's words.
pub const BLOCKS_EXCEED_REGION: &'static str = "record blocks exceed the committed region";

/// The record count `parse_region_rows` reads from the region's words, or
/// the reason it refuses them: the header word must decode, its length must
/// satisfy the pad rule (`len - pad` a multiple of 128, with
/// `pad = 128 - varint size`), words 1 to 15 must be zero, and the header
/// row with the `n` record rows must fit in the words.
pub open spec fn region_count_spec(words: Seq<u64>) -> Result<usize, &'static str> {
    match decode_header_spec(words[0]) {
        Err(e) => Err(e),
        Ok((len, size)) => {
            let pad = 128 - size;
            if len < pad || (len - pad) % 128 != 0 {
                Err(PAD_RULE_VIOLATED)
            } else if exists|i: int| 1 <= i < 16 && words[i] != 0 {
                Err(HEAD_PAD_NOT_ZERO)
            } else if 16 * ((len - pad) / 128 + 1) > words.len() {
                Err(BLOCKS_EXCEED_REGION)
            } else {
                Ok(((len - pad) / 128) as usize)
            }
        },
    }
}

proof fn lemma_leb_terminator_bound(bytes: Seq<u8>, i: nat)
    ensures
        leb_terminator(bytes, i) matches Some(t) ==> i <= t < bytes.len(),
    decreases bytes.len() - i,
{
    if i < bytes.len() && bytes[i as int] >= 0x80 {
        lemma_leb_terminator_bound(bytes, i + 1);
    }
}

/// Parse the committed region words into record rows, the header row
/// included: with `n` records, rows `0..=n` are the consecutive 16-word
/// chunks of the region. Enforces the self-anchoring pad rule (blocks start
/// at word 16).
pub fn parse_region_rows(words: &[u64]) -> (r: Result<(usize, Vec<[u64; 16]>), &'static str>)
    requires
        words.len() >= 16,
    ensures
        match r {
            Ok((n, rows)) => {
                &&& region_count_spec(words@) == Ok::<usize, &'static str>(n)
                &&& rows@.len() == n + 1
                &&& forall|i: int, j: int| 0 <= i <= n && 0 <= j < 16 ==> #[trigger] rows@[i][j] == words@[16 * i + j]
            },
            Err(e) => region_count_spec(words@) == Err::<usize, &'static str>(e),
        },
{
    let (len, size) = match decode_header_word(words[0]) {
        Ok(v) => v,
        Err(e) => {
            return Err(e);
        },
    };
    proof {
        vstd::bytes::lemma_auto_spec_u64_to_from_le_bytes();
        lemma_leb_terminator_bound(spec_u64_to_le_bytes(words@[0]), 0);
    }
    let pad = 128 - size;
    if len < pad || (len - pad) % 128 != 0 {
        return Err(PAD_RULE_VIOLATED);
    }
    let mut k: usize = 1;
    while k < RECORD_WORDS
        invariant
            1 <= k <= 16,
            words.len() >= 16,
            forall|i: int| 1 <= i < k ==> words@[i] == 0,
            decode_header_spec(words@[0]) == Ok::<(usize, usize), &'static str>((len, size)),
            size <= 8,
            pad == 128 - size,
            len >= pad && (len - pad) % 128 == 0,
        decreases 16 - k,
    {
        if words[k] != 0 {
            assert(1 <= k < 16 && words@[k as int] != 0);
            return Err(HEAD_PAD_NOT_ZERO);
        }
        k = k + 1;
    }
    let n = (len - pad) / 128;
    if n + 1 > words.len() / RECORD_WORDS {
        return Err(BLOCKS_EXCEED_REGION);
    }
    let mut rows: Vec<[u64; 16]> = Vec::with_capacity(n + 1);
    let mut i: usize = 0;
    while i <= n
        invariant
            n + 1 <= words.len() / 16,
            i <= n + 1,
            rows@.len() == i,
            forall|a: int, j: int| 0 <= a < i && 0 <= j < 16 ==> #[trigger] rows@[a][j] == words@[16 * a + j],
        decreases n + 1 - i,
    {
        let b = RECORD_WORDS * i;
        let row: [u64; 16] = [
            words[b],
            words[b + 1],
            words[b + 2],
            words[b + 3],
            words[b + 4],
            words[b + 5],
            words[b + 6],
            words[b + 7],
            words[b + 8],
            words[b + 9],
            words[b + 10],
            words[b + 11],
            words[b + 12],
            words[b + 13],
            words[b + 14],
            words[b + 15],
        ];
        rows.push(row);
        i = i + 1;
    }
    Ok((n, rows))
}

/// Registering a blob spoils the proof exactly when the blob breaks the pad
/// rule: it is shorter than its head pad `128 - varint size`, or what follows
/// the pad is not a whole number of 128-byte blocks. The registered region
/// is what follows the pad, and the cursor starts at its first byte.
pub proof fn lemma_init_spoils_iff_pad_rule_broken(s: WeldState, blob: Seq<u8>)
    ensures
        init_spec(s, blob).2 == (s.2 || !(blob.len() >= head_pad_spec(blob.len()) && (blob.len()
            - head_pad_spec(blob.len())) % 128 == 0)),
        blob.len() >= head_pad_spec(blob.len()) ==> init_spec(s, blob).0 == Some(
            blob.subrange(head_pad_spec(blob.len()) as int, blob.len() as int),
        ),
        init_spec(s, blob).1 == 0,
{
}

/// The record count read from a region depends only on its first sixteen
/// words: any region with the same header and head pad that is long enough
/// for the counted blocks gives the same count, whatever words follow them
/// (zero padding of the committed region in particular).
pub proof fn lemma_region_count_ignores_trailing_words(w1: Seq<u64>, w2: Seq<u64>, n: usize)
    requires
        w1.len() >= 16,
        w2.len() >= 16,
        forall|i: int| 0 <= i < 16 ==> w1[i] == w2[i],
        region_count_spec(w1) == Ok::<usize, &'static str>(n),
        w2.len() >= 16 * (n + 1),
    ensures
        region_count_spec(w2) == Ok::<usize, &'static str>(n),
{
    assert(w1[0] == w2[0]);
    if exists|i: int| 1 <= i < 16 && w2[i] != 0 {
        let i = choose|i: int| 1 <= i < 16 && w2[i] != 0;
        assert(w1[i] != 0);
    }
}

/// In particular, zero words appended after a parsed region change nothing.
pub proof fn lemma_region_count_zero_padding(w: Seq<u64>, zeros: Seq<u64>, n: usize)
    requires
        w.len() >= 16,
        region_count_spec(w) == Ok::<usize, &'static str>(n),
        forall|i: int| 0 <= i < zeros.len() ==> zeros[i] == 0,
    ensures
        region_count_spec(w + zeros) == Ok::<usize, &'static str>(n),
{
    let v = w + zeros;
    assert forall|i: int| 0 <= i < 16 implies w[i] == v[i] by {}
    match decode_header_spec(w[0]) {
        Ok((len, size)) => {
            assert(16 * (n + 1) <= w.len());
        },
        Err(_) => {},
    }
    lemma_region_count_ignores_trailing_words(w, v, n);
}

} // verus!
