use filesystem::query::content::{ContentMatcher, CONTENT_BUFFER_BYTES};

/// Feeds `content` to a matcher in reads of `CONTENT_BUFFER_BYTES`, the way
/// a file is read, and stops at the first match.
fn file_content_matches(content: &[u8], needle: &[u8], case_insensitive: bool) -> Option<bool> {
    let mut matcher = ContentMatcher::new(needle, case_insensitive);
    for piece in content.chunks(CONTENT_BUFFER_BYTES) {
        if matcher.feed(piece) {
            return Some(true);
        }
    }
    Some(matcher.is_found())
}

#[test]
fn empty_needle_returns_false() {
    assert_eq!(file_content_matches(b"hello world", b"", false), Some(false));
}

#[test]
fn single_byte_found_case_sensitive() {
    assert_eq!(file_content_matches(b"hello world", b"o", false), Some(true));
}

#[test]
fn single_byte_not_found_case_sensitive() {
    assert_eq!(file_content_matches(b"hello world", b"X", false), Some(false));
}

#[test]
fn single_byte_case_insensitive() {
    assert_eq!(file_content_matches(b"Hello World", b"h", true), Some(true));
    assert_eq!(file_content_matches(b"Hello World", b"w", true), Some(true));
}

#[test]
fn multi_byte_found_case_sensitive() {
    assert_eq!(file_content_matches(b"hello world", b"world", false), Some(true));
}

#[test]
fn multi_byte_not_found_case_sensitive() {
    assert_eq!(file_content_matches(b"hello world", b"WORLD", false), Some(false));
}

#[test]
fn multi_byte_case_insensitive() {
    assert_eq!(file_content_matches(b"Hello World", b"world", true), Some(true));
    assert_eq!(file_content_matches(b"Hello World", b"hello", true), Some(true));
}

#[test]
fn match_at_buffer_boundary() {
    let mut content = vec![b'A'; CONTENT_BUFFER_BYTES - 3];
    content.extend_from_slice(b"NEEDLE");
    content.extend_from_slice(&vec![b'B'; 100]);
    assert_eq!(file_content_matches(&content, b"NEEDLE", false), Some(true));
}

#[test]
fn match_at_exact_buffer_boundary() {
    let mut content = vec![b'A'; CONTENT_BUFFER_BYTES - 3];
    content.extend_from_slice(b"XYZ123");
    content.extend_from_slice(&vec![b'B'; 100]);
    assert_eq!(file_content_matches(&content, b"XYZ123", false), Some(true));
}

#[test]
fn binary_content_with_null_bytes() {
    let content = b"hello\x00world\x00test";
    assert_eq!(file_content_matches(content, b"world", false), Some(true));
    assert_eq!(file_content_matches(content, b"\x00", false), Some(true));
}

#[test]
fn utf8_multibyte_characters() {
    let content = "Hello 世界 🌍".as_bytes();
    assert_eq!(file_content_matches(content, "世界".as_bytes(), false), Some(true));
    assert_eq!(file_content_matches(content, "🌍".as_bytes(), false), Some(true));
}

#[test]
fn needle_longer_than_buffer() {
    let long_needle = vec![b'X'; CONTENT_BUFFER_BYTES + 100];
    let mut content = vec![b'A'; 1000];
    content.extend_from_slice(&long_needle);
    content.extend_from_slice(&vec![b'B'; 1000]);
    assert_eq!(file_content_matches(&content, &long_needle, false), Some(true));
}

#[test]
fn large_file_search() {
    let mut content = vec![b'A'; CONTENT_BUFFER_BYTES * 3];
    content.extend_from_slice(b"FINDME");
    content.extend_from_slice(&vec![b'B'; 1000]);
    assert_eq!(file_content_matches(&content, b"FINDME", false), Some(true));
}

#[test]
fn needle_at_start_of_file() {
    assert_eq!(file_content_matches(b"NEEDLE followed by other content", b"NEEDLE", false), Some(true));
}

#[test]
fn needle_at_end_of_file() {
    assert_eq!(file_content_matches(b"content before NEEDLE", b"NEEDLE", false), Some(true));
}

#[test]
fn empty_file() {
    assert_eq!(file_content_matches(b"", b"test", false), Some(false));
}
