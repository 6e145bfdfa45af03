use aes_extractor::entropy::{calculate_entropy, log2_fixed, ENTROPY_SCALE};

#[test]
fn entropy_of_repeated_char_is_zero() {
    assert_eq!(calculate_entropy("AAAAAAAA"), 0);
    assert_eq!(calculate_entropy("B"), 0);
    assert_eq!(calculate_entropy("0000000000000000"), 0);
}

#[test]
fn entropy_of_empty_string_is_zero() {
    assert_eq!(calculate_entropy(""), 0);
}

#[test]
fn entropy_of_distinct_chars_is_log2_of_length() {
    assert_eq!(calculate_entropy("01"), ENTROPY_SCALE);
    assert_eq!(calculate_entropy("0123"), 2 * ENTROPY_SCALE);
    assert_eq!(calculate_entropy("01234567"), 3 * ENTROPY_SCALE);
    assert_eq!(calculate_entropy("0123456789ABCDEF"), 4 * ENTROPY_SCALE);
}

#[test]
fn entropy_of_uniform_pairs_is_exact() {
    // eight chars, four distinct, each twice: 3 - 1 = 2 bits
    assert_eq!(calculate_entropy("00112233"), 2 * ENTROPY_SCALE);
    // 32 chars, 16 distinct, each twice: 5 - 1 = 4 bits
    assert_eq!(
        calculate_entropy("0123456789ABCDEF0123456789ABCDEF"),
        4 * ENTROPY_SCALE
    );
}

#[test]
fn log2_fixed_is_exact_on_powers_of_two() {
    assert_eq!(log2_fixed(1), 0);
    assert_eq!(log2_fixed(2), ENTROPY_SCALE);
    assert_eq!(log2_fixed(4), 2 * ENTROPY_SCALE);
    assert_eq!(log2_fixed(1024), 10 * ENTROPY_SCALE);
}

#[test]
fn log2_fixed_is_monotone_nearby() {
    // log2(3) lies strictly between 1 and 2 bits
    let l3 = log2_fixed(3);
    assert!(l3 > ENTROPY_SCALE);
    assert!(l3 < 2 * ENTROPY_SCALE);
    // and close to the true value 1.58496 (within one part in 2^10)
    let approx = (1.58496 * ENTROPY_SCALE as f64) as u64;
    assert!(l3.abs_diff(approx) < 64);
}

#[test]
fn entropy_tracks_shannon_entropy_closely() {
    // 3 of one char, 1 of another: H = 0.75*log2(4/3) + 0.25*log2(4)
    let s = "AAAB";
    let expected = 0.75f64 * (4.0f64 / 3.0).log2() + 0.25 * 4.0f64.log2();
    let got = calculate_entropy(s) as f64 / ENTROPY_SCALE as f64;
    assert!((got - expected).abs() < 0.001);
}
