use head::lines::{head_lines, lines_step, render_lines, utf8_check};

#[test]
fn two_of_three_lines() {
    let data = b"one\ntwo\nthree\n".to_vec();
    let out = head_lines(&data, 2);
    assert_eq!(out, vec![b"one".to_vec(), b"two".to_vec()]);
}

#[test]
fn fewer_lines_than_the_bound() {
    let data = b"a\nb\n".to_vec();
    let out = head_lines(&data, 10);
    assert_eq!(out, vec![b"a".to_vec(), b"b".to_vec()]);
}

#[test]
fn final_line_without_newline_counts() {
    let data = b"a\nb".to_vec();
    let out = head_lines(&data, 10);
    assert_eq!(out, vec![b"a".to_vec(), b"b".to_vec()]);
}

#[test]
fn carriage_return_before_newline_is_stripped() {
    let data = b"a\r\nb\n".to_vec();
    let out = head_lines(&data, 10);
    assert_eq!(out, vec![b"a".to_vec(), b"b".to_vec()]);
}

#[test]
fn final_carriage_return_without_newline_stays() {
    let data = b"a\r".to_vec();
    let out = head_lines(&data, 10);
    assert_eq!(out, vec![b"a\r".to_vec()]);
}

#[test]
fn empty_lines_are_lines() {
    let data = b"\n\n".to_vec();
    let out = head_lines(&data, 10);
    assert_eq!(out, vec![b"".to_vec(), b"".to_vec()]);
}

#[test]
fn empty_input_has_no_lines() {
    let data: Vec<u8> = Vec::new();
    let out = head_lines(&data, 10);
    assert!(out.is_empty());
}

#[test]
fn undecodable_line_is_dropped_and_not_counted() {
    let data = vec![0xff, 0xfe, b'\n', b'o', b'k', b'\n'];
    let out = head_lines(&data, 1);
    assert_eq!(out, vec![b"ok".to_vec()]);
}

#[test]
fn zero_lines_yield_nothing() {
    let data = b"one\ntwo\n".to_vec();
    let out = head_lines(&data, 0);
    assert!(out.is_empty());
}

#[test]
fn multibyte_text_is_valid() {
    let data = "héllo ∀x".as_bytes().to_vec();
    assert!(utf8_check(&data));
}

#[test]
fn ascii_is_valid() {
    assert!(utf8_check(&b"plain text".to_vec()));
    assert!(utf8_check(&Vec::new()));
}

#[test]
fn overlong_encoding_is_invalid() {
    assert!(!utf8_check(&vec![0xc0, 0xaf]));
    assert!(!utf8_check(&vec![0xe0, 0x80, 0x80]));
}

#[test]
fn surrogate_encoding_is_invalid() {
    assert!(!utf8_check(&vec![0xed, 0xa0, 0x80]));
}

#[test]
fn lone_continuation_byte_is_invalid() {
    assert!(!utf8_check(&vec![0x80]));
}

#[test]
fn truncated_sequence_is_invalid() {
    assert!(!utf8_check(&vec![0xc3]));
    assert!(!utf8_check(&vec![0xf0, 0x9f, 0x92]));
}

#[test]
fn out_of_range_codepoint_is_invalid() {
    assert!(!utf8_check(&vec![0xf5, 0x80, 0x80, 0x80]));
}

#[test]
fn step_emits_a_terminated_line() {
    let mut count: u64 = 0;
    let mut out: Vec<u8> = Vec::new();
    let stop = lines_step(&b"one".to_vec(), false, 2, &mut count, &mut out);
    assert_eq!(out, b"one\n".to_vec());
    assert_eq!(count, 1);
    assert!(!stop);
}

#[test]
fn step_says_stop_at_the_bound() {
    let mut count: u64 = 1;
    let mut out: Vec<u8> = Vec::new();
    let stop = lines_step(&b"two".to_vec(), false, 2, &mut count, &mut out);
    assert_eq!(out, b"two\n".to_vec());
    assert_eq!(count, 2);
    assert!(stop);
}

#[test]
fn step_strips_a_carriage_return_before_a_newline() {
    let mut count: u64 = 0;
    let mut out: Vec<u8> = Vec::new();
    lines_step(&b"a\r".to_vec(), false, 5, &mut count, &mut out);
    assert_eq!(out, b"a\n".to_vec());
}

#[test]
fn step_keeps_a_final_carriage_return() {
    let mut count: u64 = 0;
    let mut out: Vec<u8> = Vec::new();
    lines_step(&b"a\r".to_vec(), true, 5, &mut count, &mut out);
    assert_eq!(out, b"a\r\n".to_vec());
}

#[test]
fn step_skips_an_undecodable_chunk_without_counting() {
    let mut count: u64 = 0;
    let mut out: Vec<u8> = Vec::new();
    let stop = lines_step(&vec![0xff, 0xfe], false, 1, &mut count, &mut out);
    assert!(out.is_empty());
    assert_eq!(count, 0);
    assert!(!stop);
}

#[test]
fn step_ignores_an_empty_final_chunk() {
    let mut count: u64 = 0;
    let mut out: Vec<u8> = Vec::new();
    lines_step(&Vec::new(), true, 5, &mut count, &mut out);
    assert!(out.is_empty());
    assert_eq!(count, 0);
}

#[test]
fn step_counts_an_empty_terminated_line() {
    let mut count: u64 = 0;
    let mut out: Vec<u8> = Vec::new();
    lines_step(&Vec::new(), false, 5, &mut count, &mut out);
    assert_eq!(out, b"\n".to_vec());
    assert_eq!(count, 1);
}

#[test]
fn chunked_rendering_matches_the_line_model() {
    assert_eq!(
        render_lines(&b"one\ntwo\nthree\n".to_vec(), 2),
        b"one\ntwo\n".to_vec()
    );
    assert_eq!(render_lines(&b"a\r\nb".to_vec(), 10), b"a\nb\n".to_vec());
    assert_eq!(
        render_lines(&vec![0xff, b'\n', b'o', b'k', b'\n'], 1),
        b"ok\n".to_vec()
    );
    assert!(render_lines(&b"anything\n".to_vec(), 0).is_empty());
}
