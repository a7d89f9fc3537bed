use head::bytes::head_bytes;

#[test]
fn exact_prefix_when_source_is_long_enough() {
    let data = b"hello world".to_vec();
    let out = head_bytes(&data, 5);
    assert_eq!(out, b"hello".to_vec());
    assert_eq!(out.len(), 5);
}

#[test]
fn whole_source_when_shorter_than_the_bound() {
    let data = b"tiny".to_vec();
    assert_eq!(head_bytes(&data, 100), b"tiny".to_vec());
}

#[test]
fn bound_equal_to_length_gives_everything() {
    let data = b"abcd".to_vec();
    assert_eq!(head_bytes(&data, 4), b"abcd".to_vec());
}

#[test]
fn zero_bytes_of_a_nonempty_source_is_empty() {
    let data = b"something".to_vec();
    assert!(head_bytes(&data, 0).is_empty());
}

#[test]
fn bytes_are_copied_raw_across_newlines() {
    let data = b"a\nb\nc".to_vec();
    assert_eq!(head_bytes(&data, 3), b"a\nb".to_vec());
}

#[test]
fn empty_source_yields_empty_output() {
    let data: Vec<u8> = Vec::new();
    assert!(head_bytes(&data, 7).is_empty());
}
