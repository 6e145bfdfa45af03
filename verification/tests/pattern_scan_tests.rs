use aes_extractor::pattern::{parse_pattern, PatElem, ScanError};
use aes_extractor::scan::find_pattern;

#[test]
fn parse_simple_signature() {
    let p = parse_pattern("12 ? 56").unwrap();
    assert_eq!(p, vec![PatElem::Exact(0x12), PatElem::Wildcard, PatElem::Exact(0x56)]);
}

#[test]
fn parse_accepts_mixed_case_and_whitespace() {
    let p = parse_pattern(" 90  aB\t?\n").unwrap();
    assert_eq!(p, vec![PatElem::Exact(0x90), PatElem::Exact(0xAB), PatElem::Wildcard]);
}

#[test]
fn parse_rejects_empty_signature() {
    assert_eq!(parse_pattern(""), Err(ScanError::MalformedSignature));
    assert_eq!(parse_pattern("   "), Err(ScanError::MalformedSignature));
}

#[test]
fn parse_rejects_malformed_tokens() {
    assert_eq!(parse_pattern("1"), Err(ScanError::MalformedSignature));
    assert_eq!(parse_pattern("123"), Err(ScanError::MalformedSignature));
    assert_eq!(parse_pattern("GG"), Err(ScanError::MalformedSignature));
    assert_eq!(parse_pattern("12 ?? 56"), Err(ScanError::MalformedSignature));
}

#[test]
fn scan_wildcard_scenario() {
    // buffer [0x90, 0x12, 0x34, 0x56, 0x78], pattern "12 ? 56": one match at 1
    let buffer = [0x90u8, 0x12, 0x34, 0x56, 0x78];
    let pattern = parse_pattern("12 ? 56").unwrap();
    assert_eq!(find_pattern(&buffer, &pattern), vec![1]);
}

#[test]
fn scan_wildcard_matches_any_byte_value() {
    let pattern = parse_pattern("12 ? 56").unwrap();
    for middle in [0x00u8, 0x01, 0x7F, 0xFF] {
        let buffer = [0x12u8, middle, 0x56];
        assert_eq!(find_pattern(&buffer, &pattern), vec![0]);
    }
}

#[test]
fn scan_buffer_shorter_than_pattern_finds_nothing() {
    let pattern = parse_pattern("12 34 56").unwrap();
    let buffer = [0x12u8];
    assert_eq!(find_pattern(&buffer, &pattern), Vec::<usize>::new());
    let empty: [u8; 0] = [];
    assert_eq!(find_pattern(&empty, &pattern), Vec::<usize>::new());
}

#[test]
fn scan_returns_all_offsets_ascending() {
    let pattern = parse_pattern("AA").unwrap();
    let buffer = [0xAAu8, 0xAA, 0x00, 0xAA];
    assert_eq!(find_pattern(&buffer, &pattern), vec![0, 1, 3]);
}
