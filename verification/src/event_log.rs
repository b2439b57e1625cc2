//! The Fiat-Shamir event log's line format and caller-frame extraction.
//!
//! Every transcript operation becomes one JSON line: the global sequence
//! number, the transcript instance, the operation kind, the payload length,
//! the hex of at most the first 64 payload bytes, the hex of the payload
//! digest, and the issuing stack frame (`path:line`) with backslashes made
//! forward slashes and double quotes made single quotes. The frame is the
//! first `at <path>` line of a backtrace that is neither the transcript
//! crate nor the standard library nor the backtrace machinery, with its
//! column suffix removed. Lines are trimmed of Unicode whitespace (the
//! characters `char::is_whitespace` accepts), read in UTF-8.

use vstd::prelude::*;

verus! {

/// Longest payload prefix captured per event, in bytes. 64 bytes covers the
/// full 32-byte labels/field elements and identifies longer payloads.
pub const PREFIX_LEN: usize = 64;

/// The lower-case hex digit of a nibble.
pub open spec fn hex_digit(n: nat) -> u8 {
    if n < 10 {
        (48 + n) as u8
    } else {
        (87 + n) as u8
    }
}

/// Two lower-case hex digits per byte, high nibble first.
pub open spec fn hex_bytes(s: Seq<u8>) -> Seq<u8>
    decreases s.len(),
{
    if s.len() == 0 {
        Seq::empty()
    } else {
        hex_bytes(s.drop_last()) + seq![hex_digit((s.last() / 16) as nat), hex_digit((s.last() % 16) as nat)]
    }
}

/// The decimal digits of `n`, most significant first, without leading zeros.
pub open spec fn decimal(n: nat) -> Seq<u8>
    decreases n,
{
    if n < 10 {
        seq![(48 + n) as u8]
    } else {
        decimal(n / 10).push((48 + n % 10) as u8)
    }
}

/// A backslash becomes a forward slash and a double quote a single quote.
pub open spec fn escape_byte(b: u8) -> u8 {
    if b == 92 {
        47
    } else if b == 34 {
        39
    } else {
        b
    }
}

/// The caller text as written into the line.
pub open spec fn escape_caller(s: Seq<u8>) -> Seq<u8> {
    Seq::new(s.len(), |i: int| escape_byte(s[i]))
}

/// At most the first `PREFIX_LEN` bytes of the payload.
pub open spec fn payload_prefix(payload: Seq<u8>) -> Seq<u8> {
    if payload.len() <= 64 {
        payload
    } else {
        payload.subrange(0, 64)
    }
}

/// `{"seq":`
pub open spec fn lit_open() -> Seq<u8> {
    seq![123u8, 34, 115, 101, 113, 34, 58]
}

/// `,"inst":`
pub open spec fn lit_inst() -> Seq<u8> {
    seq![44u8, 34, 105, 110, 115, 116, 34, 58]
}

/// `,"kind":"`
pub open spec fn lit_kind() -> Seq<u8> {
    seq![44u8, 34, 107, 105, 110, 100, 34, 58, 34]
}

/// `","len":`
pub open spec fn lit_len() -> Seq<u8> {
    seq![34u8, 44, 34, 108, 101, 110, 34, 58]
}

/// `,"data":"`
pub open spec fn lit_data() -> Seq<u8> {
    seq![44u8, 34, 100, 97, 116, 97, 34, 58, 34]
}

/// `","digest":"`
pub open spec fn lit_digest() -> Seq<u8> {
    seq![34u8, 44, 34, 100, 105, 103, 101, 115, 116, 34, 58, 34]
}

/// `","caller":"`
pub open spec fn lit_caller() -> Seq<u8> {
    seq![34u8, 44, 34, 99, 97, 108, 108, 101, 114, 34, 58, 34]
}

/// `"}` and a newline.
pub open spec fn lit_close() -> Seq<u8> {
    seq![34u8, 125, 10]
}

/// The JSON line of one transcript event.
pub open spec fn event_line_spec(
    seq_no: nat,
    instance: nat,
    kind: Seq<u8>,
    payload: Seq<u8>,
    digest: Seq<u8>,
    caller: Seq<u8>,
) -> Seq<u8> {
    lit_open() + decimal(seq_no) + lit_inst() + decimal(instance) + lit_kind() + kind + lit_len()
        + decimal(payload.len()) + lit_data() + hex_bytes(payload_prefix(payload)) + lit_digest()
        + hex_bytes(digest) + lit_caller() + escape_caller(caller) + lit_close()
}

fn push_bytes(out: &mut Vec<u8>, s: &[u8])
    ensures
        final(out)@ == old(out)@ + s@,
{
    let mut i: usize = 0;
    while i < s.len()
        invariant
            i <= s.len(),
            out@ == old(out)@ + s@.subrange(0, i as int),
        decreases s.len() - i,
    {
        out.push(s[i]);
        i = i + 1;
        assert(out@ =~= old(out)@ + s@.subrange(0, i as int));
    }
    assert(s@.subrange(0, s.len() as int) =~= s@);
}

fn hex_nibble(n: u8) -> (r: u8)
    requires
        n < 16,
    ensures
        r == hex_digit(n as nat),
{
    if n < 10 {
        48 + n
    } else {
        87 + n
    }
}

fn push_hex(out: &mut Vec<u8>, bytes: &[u8])
    ensures
        final(out)@ == old(out)@ + hex_bytes(bytes@),
{
    let mut i: usize = 0;
    while i < bytes.len()
        invariant
            i <= bytes.len(),
            out@ == old(out)@ + hex_bytes(bytes@.subrange(0, i as int)),
        decreases bytes.len() - i,
    {
        let b = bytes[i];
        out.push(hex_nibble(b / 16));
        out.push(hex_nibble(b % 16));
        proof {
            let t = bytes@.subrange(0, i + 1);
            assert(t.drop_last() =~= bytes@.subrange(0, i as int));
            assert(t.last() == b);
        }
        i = i + 1;
        assert(out@ =~= old(out)@ + hex_bytes(bytes@.subrange(0, i as int)));
    }
    assert(bytes@.subrange(0, bytes.len() as int) =~= bytes@);
}

fn push_decimal(out: &mut Vec<u8>, n: u64)
    ensures
        final(out)@ == old(out)@ + decimal(n as nat),
    decreases n,
{
    if n >= 10 {
        push_decimal(out, n / 10);
    }
    let d = (n % 10) as u8;
    out.push(48 + d);
    assert(out@ =~= old(out)@ + decimal(n as nat));
}

fn push_escaped(out: &mut Vec<u8>, s: &[u8])
    ensures
        final(out)@ == old(out)@ + escape_caller(s@),
{
    let mut i: usize = 0;
    while i < s.len()
        invariant
            i <= s.len(),
            out@ == old(out)@ + escape_caller(s@.subrange(0, i as int)),
        decreases s.len() - i,
    {
        let b = s[i];
        let e = if b == 92 {
            47
        } else if b == 34 {
            39
        } else {
            b
        };
        out.push(e);
        i = i + 1;
        assert(out@ =~= old(out)@ + escape_caller(s@.subrange(0, i as int)));
    }
    assert(s@.subrange(0, s.len() as int) =~= s@);
}

/// The JSON line of one transcript event: `{"seq":..,"inst":..,"kind":"..",
/// "len":..,"data":"..","digest":"..","caller":".."}` and a newline. `data`
/// is the hex of at most the first 64 payload bytes, `digest` the hex of the
/// whole digest, and `caller` has its backslashes and double quotes replaced.
pub fn event_line(
    seq_no: u64,
    instance: u64,
    kind: &[u8],
    payload: &[u8],
    payload_digest: &[u8],
    caller: &[u8],
) -> (line: Vec<u8>)
    ensures
        line@ == event_line_spec(
            seq_no as nat,
            instance as nat,
            kind@,
            payload@,
            payload_digest@,
            caller@,
        ),
{
    let mut line: Vec<u8> = Vec::new();
    push_bytes(&mut line, &[123u8, 34, 115, 101, 113, 34, 58]);
    push_decimal(&mut line, seq_no);
    push_bytes(&mut line, &[44u8, 34, 105, 110, 115, 116, 34, 58]);
    push_decimal(&mut line, instance);
    push_bytes(&mut line, &[44u8, 34, 107, 105, 110, 100, 34, 58, 34]);
    push_bytes(&mut line, kind);
    push_bytes(&mut line, &[34u8, 44, 34, 108, 101, 110, 34, 58]);
    push_decimal(&mut line, payload.len() as u64);
    push_bytes(&mut line, &[44u8, 34, 100, 97, 116, 97, 34, 58, 34]);
    let prefix_len = if payload.len() < PREFIX_LEN {
        payload.len()
    } else {
        PREFIX_LEN
    };
    push_hex(&mut line, vstd::slice::slice_subrange(payload, 0, prefix_len));
    push_bytes(&mut line, &[34u8, 44, 34, 100, 105, 103, 101, 115, 116, 34, 58, 34]);
    push_hex(&mut line, payload_digest);
    push_bytes(&mut line, &[34u8, 44, 34, 99, 97, 108, 108, 101, 114, 34, 58, 34]);
    push_escaped(&mut line, caller);
    push_bytes(&mut line, &[34u8, 125, 10]);
    proof {
        assert(payload@.subrange(0, prefix_len as int) =~= payload_prefix(payload@));
    }
    line
}

/// ASCII whitespace: space, tab, line feed, vertical tab, form feed, carriage return.
pub open spec fn is_space(b: u8) -> bool {
    b == 32 || (9 <= b && b <= 13)
}

/// The second byte of a two-byte whitespace character after `0xC2`:
/// U+0085 and U+00A0.
pub open spec fn is_space2(b: u8) -> bool {
    b == 0x85 || b == 0xA0
}

/// The UTF-8 encoding of a three-byte whitespace character: U+1680,
/// U+2000 to U+200A, U+2028, U+2029, U+202F, U+205F and U+3000.
pub open spec fn is_space3(a: u8, b: u8, c: u8) -> bool {
    ||| a == 0xE1 && b == 0x9A && c == 0x80
    ||| a == 0xE2 && b == 0x80 && ((0x80 <= c && c <= 0x8A) || c == 0xA8 || c == 0xA9 || c == 0xAF)
    ||| a == 0xE2 && b == 0x81 && c == 0x9F
    ||| a == 0xE3 && b == 0x80 && c == 0x80
}

/// The byte length of the whitespace character that starts at index `i` of
/// `s` (Unicode's White_Space set, the characters `char::is_whitespace`
/// accepts, in UTF-8); zero when no whitespace character starts there.
pub open spec fn space_len_at(s: Seq<u8>, i: int) -> nat {
    if 0 <= i < s.len() && is_space(s[i]) {
        1
    } else if 0 <= i && i + 1 < s.len() && s[i] == 0xC2 && is_space2(s[i + 1]) {
        2
    } else if 0 <= i && i + 2 < s.len() && is_space3(s[i], s[i + 1], s[i + 2]) {
        3
    } else {
        0
    }
}

/// The byte length of the whitespace character that ends just before index
/// `n` of `s`; zero when none ends there.
pub open spec fn space_len_before(s: Seq<u8>, n: int) -> nat {
    if 1 <= n <= s.len() && is_space(s[n - 1]) {
        1
    } else if 2 <= n <= s.len() && s[n - 2] == 0xC2 && is_space2(s[n - 1]) {
        2
    } else if 3 <= n <= s.len() && is_space3(s[n - 3], s[n - 2], s[n - 1]) {
        3
    } else {
        0
    }
}

/// The index of the first non-whitespace character of `s` at or after `i`.
pub open spec fn skip_space(s: Seq<u8>, i: nat) -> nat
    decreases s.len() - i,
{
    if i < s.len() && space_len_at(s, i as int) > 0 {
        skip_space(s, i + space_len_at(s, i as int))
    } else {
        i
    }
}

/// The length of the first `n` bytes of `s` without their trailing whitespace.
pub open spec fn trimmed_len(s: Seq<u8>, n: nat) -> nat
    decreases n,
{
    if 0 < n <= s.len() && space_len_before(s, n as int) > 0 {
        trimmed_len(s, (n - space_len_before(s, n as int)) as nat)
    } else {
        n
    }
}

/// The index of the last `:` among the first `n` bytes of `s`.
pub open spec fn last_colon(s: Seq<u8>, n: nat) -> Option<nat>
    decreases n,
{
    if n == 0 {
        None
    } else if s[n - 1] == 58 {
        Some((n - 1) as nat)
    } else {
        last_colon(s, (n - 1) as nat)
    }
}

/// Every byte is an ASCII digit.
pub open spec fn all_digits(s: Seq<u8>) -> bool {
    forall|i: int| 0 <= i < s.len() ==> 48 <= #[trigger] s[i] <= 57
}

/// `needle` occurs in `hay` at index `k`.
pub open spec fn occurs_at(hay: Seq<u8>, needle: Seq<u8>, k: int) -> bool {
    0 <= k && k + needle.len() <= hay.len() && hay.subrange(k, k + needle.len()) == needle
}

/// `needle` occurs somewhere in `hay`.
pub open spec fn occurs_in(hay: Seq<u8>, needle: Seq<u8>) -> bool {
    exists|k: int| occurs_at(hay, needle, k)
}

/// `jolt-transcript/src`
pub open spec fn transcript_src_dir() -> Seq<u8> {
    seq![106u8, 111, 108, 116, 45, 116, 114, 97, 110, 115, 99, 114, 105, 112, 116, 47, 115, 114, 99]
}

/// `/rustc/`
pub open spec fn rustc_dir() -> Seq<u8> {
    seq![47u8, 114, 117, 115, 116, 99, 47]
}

/// `/library/std/`
pub open spec fn std_dir() -> Seq<u8> {
    seq![47u8, 108, 105, 98, 114, 97, 114, 121, 47, 115, 116, 100, 47]
}

/// `/library/core/`
pub open spec fn core_dir() -> Seq<u8> {
    seq![47u8, 108, 105, 98, 114, 97, 114, 121, 47, 99, 111, 114, 101, 47]
}

/// `backtrace`
pub open spec fn backtrace_word() -> Seq<u8> {
    seq![98u8, 97, 99, 107, 116, 114, 97, 99, 101]
}

/// A frame of the transcript crate, the standard library or the backtrace
/// machinery, which the search passes over.
pub open spec fn skipped_path(path: Seq<u8>) -> bool {
    ||| occurs_in(path, transcript_src_dir())
    ||| occurs_in(path, rustc_dir())
    ||| occurs_in(path, std_dir())
    ||| occurs_in(path, core_dir())
    ||| occurs_in(path, backtrace_word())
}

/// A path without its `:column` suffix, when the text after its last colon
/// is all digits.
pub open spec fn strip_column(t: Seq<u8>) -> Seq<u8> {
    match last_colon(t, t.len()) {
        Some(idx) => if all_digits(t.subrange((idx + 1) as int, t.len() as int)) {
            t.subrange(0, idx as int)
        } else {
            t
        },
        None => t,
    }
}

/// The frame a backtrace line names: after leading whitespace the line
/// reads `at <path>`, the path is not skipped, and the result is the path
/// without trailing whitespace and without its column suffix.
pub open spec fn frame_of_line(line: Seq<u8>) -> Option<Seq<u8>> {
    let s = skip_space(line, 0);
    if s + 3 <= line.len() && line[s as int] == 97 && line[(s + 1) as int] == 116 && line[(s + 2) as int] == 32 {
        let path = line.subrange((s + 3) as int, line.len() as int);
        if skipped_path(path) {
            None
        } else {
            Some(strip_column(path.subrange(0, trimmed_len(path, path.len()) as int)))
        }
    } else {
        None
    }
}

/// The frame of the first line, among those from the line that starts at
/// `start` (scanned up to `i`) on, that names one; empty when none does.
/// Lines end at a line feed.
pub open spec fn first_frame(text: Seq<u8>, start: nat, i: nat) -> Seq<u8>
    decreases text.len() - i,
{
    if i >= text.len() {
        match frame_of_line(text.subrange(start as int, text.len() as int)) {
            Some(f) => f,
            None => Seq::empty(),
        }
    } else if text[i as int] == 10 {
        match frame_of_line(text.subrange(start as int, i as int)) {
            Some(f) => f,
            None => first_frame(text, i + 1, i + 1),
        }
    } else {
        first_frame(text, start, i + 1)
    }
}

/// The caller frame a backtrace's text names.
pub open spec fn caller_frame_spec(text: Seq<u8>) -> Seq<u8> {
    first_frame(text, 0, 0)
}

fn is_space_byte(b: u8) -> (r: bool)
    ensures
        r == is_space(b),
{
    b == 32 || (9 <= b && b <= 13)
}

fn is_space3_bytes(a: u8, b: u8, c: u8) -> (r: bool)
    ensures
        r == is_space3(a, b, c),
{
    (a == 0xE1 && b == 0x9A && c == 0x80) || (a == 0xE2 && b == 0x80 && ((0x80 <= c && c <= 0x8A) || c
        == 0xA8 || c == 0xA9 || c == 0xAF)) || (a == 0xE2 && b == 0x81 && c == 0x9F) || (a == 0xE3 && b
        == 0x80 && c == 0x80)
}

/// The length of the whitespace character at index `i` of `text[lo..hi]`.
fn space_len_at_in(text: &[u8], lo: usize, hi: usize, i: usize) -> (r: usize)
    requires
        lo <= i <= hi <= text.len(),
    ensures
        r == space_len_at(text@.subrange(lo as int, hi as int), i - lo),
        r <= 3,
{
    let ghost s = text@.subrange(lo as int, hi as int);
    if i < hi && is_space_byte(text[i]) {
        1
    } else if hi - i >= 2 && text[i] == 0xC2 && (text[i + 1] == 0x85 || text[i + 1] == 0xA0) {
        2
    } else if hi - i >= 3 && is_space3_bytes(text[i], text[i + 1], text[i + 2]) {
        3
    } else {
        proof {
            if i + 2 < hi {
                assert(s[i - lo] == text@[i as int]);
                assert(s[i - lo + 1] == text@[i + 1]);
                assert(s[i - lo + 2] == text@[i + 2]);
            }
        }
        0
    }
}

/// The length of the whitespace character ending just before index `j` of
/// `text[lo..hi]`.
fn space_len_before_in(text: &[u8], lo: usize, hi: usize, j: usize) -> (r: usize)
    requires
        lo <= j <= hi <= text.len(),
    ensures
        r == space_len_before(text@.subrange(lo as int, hi as int), j - lo),
        r <= j - lo,
{
    let ghost s = text@.subrange(lo as int, hi as int);
    if j - lo >= 1 && is_space_byte(text[j - 1]) {
        1
    } else if j - lo >= 2 && text[j - 2] == 0xC2 && (text[j - 1] == 0x85 || text[j - 1] == 0xA0) {
        2
    } else if j - lo >= 3 && is_space3_bytes(text[j - 3], text[j - 2], text[j - 1]) {
        3
    } else {
        proof {
            if j - lo >= 3 {
                assert(s[j - lo - 3] == text@[j - 3]);
                assert(s[j - lo - 2] == text@[j - 2]);
                assert(s[j - lo - 1] == text@[j - 1]);
            }
        }
        0
    }
}

/// Whether `needle` occurs at `pos` of `text`.
fn matches_at(text: &[u8], pos: usize, needle: &[u8]) -> (r: bool)
    requires
        pos <= text.len(),
        needle.len() <= text.len() - pos,
    ensures
        r == (text@.subrange(pos as int, pos + needle.len()) == needle@),
{
    let mut j: usize = 0;
    while j < needle.len()
        invariant
            j <= needle.len(),
            pos <= text.len(),
            needle.len() <= text.len() - pos,
            forall|m: int| 0 <= m < j ==> text@[pos + m] == needle@[m],
        decreases needle.len() - j,
    {
        if text[pos + j] != needle[j] {
            assert(text@.subrange(pos as int, pos + needle.len())[j as int] != needle@[j as int]);
            return false;
        }
        j = j + 1;
    }
    assert(text@.subrange(pos as int, pos + needle.len()) =~= needle@);
    true
}

/// Whether `needle` occurs in `text[from..to]`.
fn occurs_within(text: &[u8], from: usize, to: usize, needle: &[u8]) -> (r: bool)
    requires
        from <= to <= text.len(),
    ensures
        r == occurs_in(text@.subrange(from as int, to as int), needle@),
{
    let ghost hay = text@.subrange(from as int, to as int);
    if needle.len() > to - from {
        return false;
    }
    let limit = to - from - needle.len();
    let mut k: usize = 0;
    loop
        invariant
            from <= to <= text.len(),
            needle.len() <= to - from,
            limit == to - from - needle.len(),
            k <= limit,
            hay == text@.subrange(from as int, to as int),
            forall|k2: int| 0 <= k2 < k ==> !occurs_at(hay, needle@, k2),
        decreases limit - k,
    {
        let hit = matches_at(text, from + k, needle);
        assert(hay.subrange(k as int, k + needle.len()) =~= text@.subrange(from + k, from + k + needle.len()));
        if hit {
            assert(occurs_at(hay, needle@, k as int));
            return true;
        }
        if k == limit {
            assert forall|k2: int| !occurs_at(hay, needle@, k2) by {
                if 0 <= k2 && k2 + needle@.len() <= hay.len() && k2 < k {
                    assert(!occurs_at(hay, needle@, k2));
                }
            }
            return false;
        }
        k = k + 1;
    }
}

/// The frame line `text[start..end]` names, if any.
fn frame_in_line(text: &[u8], start: usize, end: usize) -> (r: Option<Vec<u8>>)
    requires
        start <= end <= text.len(),
    ensures
        match r {
            Some(v) => frame_of_line(text@.subrange(start as int, end as int)) == Some(v@),
            None => frame_of_line(text@.subrange(start as int, end as int)) is None,
        },
{
    let ghost line = text@.subrange(start as int, end as int);
    let mut s = start;
    while s < end && space_len_at_in(text, start, end, s) > 0
        invariant
            start <= s <= end <= text.len(),
            line == text@.subrange(start as int, end as int),
            skip_space(line, 0) == skip_space(line, (s - start) as nat),
        decreases end - s,
    {
        let k = space_len_at_in(text, start, end, s);
        s = s + k;
    }
    assert(skip_space(line, 0) == s - start);
    if !(end - s >= 3 && text[s] == 97 && text[s + 1] == 116 && text[s + 2] == 32) {
        return None;
    }
    let p = s + 3;
    let ghost path = line.subrange((s - start) + 3, line.len() as int);
    assert(path =~= text@.subrange(p as int, end as int));
    if occurs_within(text, p, end, &[106u8, 111, 108, 116, 45, 116, 114, 97, 110, 115, 99, 114, 105, 112, 116, 47, 115, 114, 99])
        || occurs_within(text, p, end, &[47u8, 114, 117, 115, 116, 99, 47])
        || occurs_within(text, p, end, &[47u8, 108, 105, 98, 114, 97, 114, 121, 47, 115, 116, 100, 47])
        || occurs_within(text, p, end, &[47u8, 108, 105, 98, 114, 97, 114, 121, 47, 99, 111, 114, 101, 47])
        || occurs_within(text, p, end, &[98u8, 97, 99, 107, 116, 114, 97, 99, 101]) {
        return None;
    }
    let mut e = end;
    while e > p && space_len_before_in(text, p, end, e) > 0
        invariant
            p <= e <= end <= text.len(),
            path == text@.subrange(p as int, end as int),
            trimmed_len(path, path.len()) == trimmed_len(path, (e - p) as nat),
        decreases e,
    {
        let k = space_len_before_in(text, p, end, e);
        e = e - k;
    }
    assert(trimmed_len(path, path.len()) == e - p);
    let ghost t = path.subrange(0, (e - p) as int);
    assert(t =~= text@.subrange(p as int, e as int));
    let mut c = e;
    while c > p && text[c - 1] != 58
        invariant
            p <= c <= e <= text.len(),
            t == text@.subrange(p as int, e as int),
            last_colon(t, t.len()) == last_colon(t, (c - p) as nat),
        decreases c,
    {
        c = c - 1;
    }
    if c > p {
        assert(last_colon(t, t.len()) == Some((c - 1 - p) as nat));
        let mut j = c;
        let mut digits = true;
        while j < e
            invariant
                c <= j <= e <= text.len(),
                digits == (forall|m: int| c <= m < j ==> 48 <= #[trigger] text@[m] <= 57),
            decreases e - j,
        {
            if text[j] < 48 || text[j] > 57 {
                digits = false;
            }
            j = j + 1;
        }
        let ghost tail = t.subrange((c - p) as int, t.len() as int);
        assert(tail =~= text@.subrange(c as int, e as int));
        if digits {
            assert(all_digits(tail));
            let v = vstd::slice::slice_to_vec(vstd::slice::slice_subrange(text, p, c - 1));
            assert(v@ =~= t.subrange(0, (c - 1 - p) as int));
            return Some(v);
        } else {
            assert(!all_digits(tail)) by {
                let m = choose|m: int| c <= m < e && !(48 <= #[trigger] text@[m] <= 57);
                assert(tail[m - c] == text@[m]);
            }
        }
    } else {
        assert(last_colon(t, t.len()) is None);
    }
    let v = vstd::slice::slice_to_vec(vstd::slice::slice_subrange(text, p, e));
    assert(v@ =~= t);
    Some(v)
}

/// The first stack frame of a backtrace's text outside the transcript
/// crate, the standard library and the backtrace machinery, as `path:line`;
/// empty when the text names none.
pub fn caller_frame_from_backtrace(text: &[u8]) -> (frame: Vec<u8>)
    ensures
        frame@ == caller_frame_spec(text@),
{
    let mut start: usize = 0;
    let mut i: usize = 0;
    while i < text.len()
        invariant
            start <= i <= text.len(),
            first_frame(text@, 0, 0) == first_frame(text@, start as nat, i as nat),
        decreases text.len() - i,
    {
        if text[i] == 10 {
            match frame_in_line(text, start, i) {
                Some(f) => {
                    return f;
                },
                None => {},
            }
            start = i + 1;
        }
        i = i + 1;
    }
    match frame_in_line(text, start, text.len()) {
        Some(f) => f,
        None => Vec::new(),
    }
}

/// The caller field of an event: the caller frame the backtrace names, or
/// nothing when caller recording is switched off.
pub fn caller_field(record_callers: bool, backtrace: &[u8]) -> (frame: Vec<u8>)
    ensures
        frame@ == if record_callers {
            caller_frame_spec(backtrace@)
        } else {
            Seq::empty()
        },
{
    if record_callers {
        caller_frame_from_backtrace(backtrace)
    } else {
        Vec::new()
    }
}

/// The caller text changes only at backslashes, which become forward
/// slashes, and double quotes, which become single quotes; every other byte
/// (non-ASCII UTF-8 bytes included) is kept in place, so the written caller
/// holds no backslash and no double quote.
pub proof fn lemma_escape_changes_only_backslash_and_quote(caller: Seq<u8>)
    ensures
        escape_caller(caller).len() == caller.len(),
        forall|i: int|
            0 <= i < caller.len() && caller[i] != 92 && caller[i] != 34 ==> #[trigger] escape_caller(caller)[i]
                == caller[i],
        forall|i: int| 0 <= i < caller.len() && caller[i] == 92 ==> #[trigger] escape_caller(caller)[i] == 47,
        forall|i: int| 0 <= i < caller.len() && caller[i] == 34 ==> #[trigger] escape_caller(caller)[i] == 39,
        forall|i: int|
            0 <= i < caller.len() ==> #[trigger] escape_caller(caller)[i] != 92 && escape_caller(caller)[i] != 34,
{
}

} // verus!
