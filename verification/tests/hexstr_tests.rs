use aes_extractor::bytes_to_hex;
use aes_extractor::hexstr::hex_pair_to_byte;

#[test]
fn bytes_to_hex_known_values() {
    assert_eq!(bytes_to_hex(&[0xBE, 0xEF]), "BEEF");
    assert_eq!(bytes_to_hex(&[]), "");
    assert_eq!(bytes_to_hex(&[0x0F, 0xA0]), "0FA0");
    assert_eq!(bytes_to_hex(&[0x00]), "00");
}

#[test]
fn hex_round_trip_all_bytes() {
    for b in 0..=255u8 {
        let s = bytes_to_hex(&[b]);
        let chars: Vec<char> = s.chars().collect();
        assert_eq!(chars.len(), 2);
        assert_eq!(hex_pair_to_byte(chars[0], chars[1]), Some(b));
    }
}

#[test]
fn hex_pair_to_byte_accepts_lower_case() {
    assert_eq!(hex_pair_to_byte('f', 'f'), Some(0xFF));
    assert_eq!(hex_pair_to_byte('a', 'B'), Some(0xAB));
}

#[test]
fn hex_pair_to_byte_rejects_non_hex() {
    assert_eq!(hex_pair_to_byte('G', '0'), None);
    assert_eq!(hex_pair_to_byte('0', ' '), None);
}
