use edwards_bls12_accel::event_log::{caller_field, caller_frame_from_backtrace, event_line, PREFIX_LEN};

fn line_text(
    seq_no: u64,
    instance: u64,
    kind: &str,
    payload: &[u8],
    digest: &[u8],
    caller: &str,
) -> String {
    String::from_utf8(event_line(
        seq_no,
        instance,
        kind.as_bytes(),
        payload,
        digest,
        caller.as_bytes(),
    ))
    .unwrap()
}

fn frame(text: &str) -> String {
    String::from_utf8(caller_frame_from_backtrace(text.as_bytes())).unwrap()
}

#[test]
fn event_line_has_every_field() {
    let line = line_text(3, 1, "absorb", &[0xab, 0x01], &[0xff, 0x00], "C:\\src\\a\"b.rs:10");
    assert_eq!(
        line,
        "{\"seq\":3,\"inst\":1,\"kind\":\"absorb\",\"len\":2,\"data\":\"ab01\",\"digest\":\"ff00\",\"caller\":\"C:/src/a'b.rs:10\"}\n"
    );
}

#[test]
fn event_line_caps_the_payload_prefix() {
    let payload: Vec<u8> = (0..100u8).collect();
    let line = line_text(1234567890, 0, "k", &payload, &[], "");
    let expected_hex: String = payload[..PREFIX_LEN].iter().map(|b| format!("{b:02x}")).collect();
    assert_eq!(
        line,
        format!(
            "{{\"seq\":1234567890,\"inst\":0,\"kind\":\"k\",\"len\":100,\"data\":\"{expected_hex}\",\"digest\":\"\",\"caller\":\"\"}}\n"
        )
    );
    // a payload of exactly the prefix length is captured whole
    let line = line_text(0, u64::MAX, "k", &payload[..64], &[1], "x");
    assert!(line.contains("\"len\":64,"));
    assert!(line.contains(&format!("\"data\":\"{expected_hex}\"")));
    assert!(line.contains("\"inst\":18446744073709551615,"));
}

#[test]
fn caller_frame_skips_transcript_and_std_frames() {
    let bt = "   0: jolt_transcript::event_log::record\n             at /home/u/jolt/crates/jolt-transcript/src/event_log.rs:55:20\n   1: std::rt::lang_start\n             at /rustc/abc/library/std/src/rt.rs:10:5\n   2: my_prover::prove\n             at /home/u/jolt/crates/prover/src/lib.rs:42:9\n   3: main\n             at /home/u/jolt/src/main.rs:7:1\n";
    assert_eq!(frame(bt), "/home/u/jolt/crates/prover/src/lib.rs:42");
}

#[test]
fn caller_frame_edge_cases() {
    // no frame at all
    assert_eq!(frame(""), "");
    assert_eq!(frame("   0: main\n"), "");
    // only skipped frames
    assert_eq!(frame("  at /x/library/core/src/a.rs:1:2\n  at /y/backtrace/b.rs:3:4"), "");
    // no column suffix, and a suffix that is not all digits
    assert_eq!(frame("at src/main.rs"), "src/main.rs");
    assert_eq!(frame("   at <unknown>:abc"), "<unknown>:abc");
    // trailing carriage return and spaces are trimmed before the column goes
    assert_eq!(frame("  at /x/y.rs:7:3 \r\nat /z.rs:1:1"), "/x/y.rs:7");
    // "at" must be followed by a space and start the trimmed line
    assert_eq!(frame("  xat /a.rs:1:1\n\tat /b.rs:2:2"), "/b.rs:2");
    // a trailing colon with no digits after it is removed as an empty column
    assert_eq!(frame("at /c.rs:"), "/c.rs");
}

#[test]
fn caller_field_is_empty_when_switched_off() {
    let bt = b"  at /a/b.rs:3:4\n";
    assert_eq!(caller_field(false, bt), Vec::<u8>::new());
    assert_eq!(caller_field(true, bt), b"/a/b.rs:3".to_vec());
}

#[test]
fn caller_frame_trims_unicode_whitespace() {
    // a no-break space before "at"
    assert_eq!(frame("\u{a0}at /"), "/");
    // ideographic space and next-line before, em space and line separator after
    assert_eq!(frame("\u{3000}\u{85} at /x/y.rs:9:1\u{2003}\u{2028}"), "/x/y.rs:9");
    // every whitespace character `char::is_whitespace` accepts, in front
    let all: String = (0u32..=0x3000)
        .filter_map(char::from_u32)
        .filter(|c| c.is_whitespace() && *c != '\n')
        .collect();
    assert_eq!(frame(&format!("{all}at /z.rs:3:4{all}")), "/z.rs:3");
    // a non-whitespace character before "at" still hides the frame
    assert_eq!(frame("\u{200b}at /w.rs:1:1"), "");
}
