use aes_extractor::engine::{extract_key_at, extract_keys, ExtractError, Signature};
use aes_extractor::entropy::ENTROPY_SCALE;
use aes_extractor::pattern::ScanError;
use aes_extractor::path_buf_ends_with;

fn sig(pattern: &str, windows: &[usize]) -> Signature {
    Signature { pattern: pattern.to_string(), windows: windows.to_vec() }
}

#[test]
fn extract_key_at_concatenates_windows() {
    let data = [
        0x01u8, 0x02, 0x03, 0xDE, 0xAD, 0xBE, 0xEF, 0x01, 0x02, 0x03, 0x04,
    ];
    let key = extract_key_at(&data, &vec![3, 7], 0).unwrap();
    assert_eq!(key, "DEADBEEF01020304");
}

#[test]
fn extract_key_at_out_of_bounds_window_fails() {
    let data = [0u8; 11];
    assert_eq!(extract_key_at(&data, &vec![9], 0), Err(ExtractError::OutOfBounds));
    assert_eq!(extract_key_at(&data, &vec![0], 8), Err(ExtractError::OutOfBounds));
    assert!(extract_key_at(&data, &vec![7], 0).is_ok());
}

#[test]
fn extract_keys_finds_key_after_pattern() {
    let data = [
        0x10u8, 0x20, 0x30, 0x01, 0x23, 0x45, 0x67, 0x89, 0xAB, 0xCD, 0xEF,
    ];
    let sigs = vec![sig("10 20 30", &[3, 7])];
    let out = extract_keys(&data, &sigs, &vec![], 3 * ENTROPY_SCALE).unwrap();
    assert_eq!(out.len(), 1);
    assert_eq!(out[0].key, "0123456789ABCDEF");
    assert_eq!(out[0].entropy, 4 * ENTROPY_SCALE);
}

#[test]
fn extract_keys_suppresses_false_positives() {
    let data = [
        0x10u8, 0x20, 0x30, 0x01, 0x23, 0x45, 0x67, 0x89, 0xAB, 0xCD, 0xEF,
    ];
    let sigs = vec![sig("10 20 30", &[3, 7])];
    let fps = vec!["0123456789ABCDEF".to_string()];
    let out = extract_keys(&data, &sigs, &fps, 3 * ENTROPY_SCALE).unwrap();
    assert!(out.is_empty());
}

#[test]
fn extract_keys_unreachable_threshold_is_empty_not_error() {
    let data = [
        0x10u8, 0x20, 0x30, 0x01, 0x23, 0x45, 0x67, 0x89, 0xAB, 0xCD, 0xEF,
    ];
    let sigs = vec![sig("10 20 30", &[3, 7])];
    let out = extract_keys(&data, &sigs, &vec![], 10 * ENTROPY_SCALE).unwrap();
    assert!(out.is_empty());
}

#[test]
fn extract_keys_short_buffer_is_empty_not_error() {
    let data = [0x10u8];
    let sigs = vec![sig("10 20 30", &[3, 7])];
    let out = extract_keys(&data, &sigs, &vec![], 0).unwrap();
    assert!(out.is_empty());
}

#[test]
fn extract_keys_rejects_malformed_signature() {
    let data = [0u8; 4];
    let sigs = vec![sig("XY Z", &[0])];
    let err = extract_keys(&data, &sigs, &vec![], 0).unwrap_err();
    assert_eq!(err, ScanError::MalformedSignature);
}

#[test]
fn extract_keys_skips_match_with_window_past_buffer() {
    // the pattern matches at the very end, so the window cannot be read
    let data = [0x10u8, 0x20];
    let sigs = vec![sig("10 20", &[2])];
    let out = extract_keys(&data, &sigs, &vec![], 0).unwrap();
    assert!(out.is_empty());
}

#[test]
fn extract_keys_sorts_by_entropy_descending() {
    let data = [
        0x01u8, 0x02, 0x11, 0x11, 0x11, 0x11, // low-entropy key "11111111"
        0x03, 0x04, 0x12, 0x34, 0x56, 0x78, // high-entropy key "12345678"
    ];
    let sigs = vec![sig("01 02", &[2]), sig("03 04", &[2])];
    let out = extract_keys(&data, &sigs, &vec![], 0).unwrap();
    assert_eq!(out.len(), 2);
    assert_eq!(out[0].key, "12345678");
    assert_eq!(out[1].key, "11111111");
    for a in 0..out.len() {
        for b in (a + 1)..out.len() {
            assert!(out[a].entropy >= out[b].entropy);
        }
    }
}

#[test]
fn extract_keys_keeps_duplicate_keys() {
    let data = [
        0x01u8, 0x02, 0x12, 0x34, 0x56, 0x78, 0x01, 0x02, 0x12, 0x34, 0x56, 0x78,
    ];
    let sigs = vec![sig("01 02", &[2])];
    let out = extract_keys(&data, &sigs, &vec![], 0).unwrap();
    assert_eq!(out.len(), 2);
    assert_eq!(out[0].key, "12345678");
    assert_eq!(out[1].key, "12345678");
}

#[test]
fn path_ends_with_extension() {
    assert!(path_buf_ends_with("C:/games/shooter.exe", ".exe"));
    assert!(path_buf_ends_with("shooter.exe", ".exe"));
    assert!(!path_buf_ends_with("shooter.txt", ".exe"));
    assert!(!path_buf_ends_with("e", ".exe"));
    assert!(!path_buf_ends_with("shooter.EXE", ".exe"));
}

#[test]
fn extract_keys_with_no_signatures_is_empty() {
    let data = [0u8; 16];
    let out = extract_keys(&data, &vec![], &vec![], 0).unwrap();
    assert!(out.is_empty());
}
