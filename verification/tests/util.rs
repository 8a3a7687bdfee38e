use strcursor::util::{
    encode_utf8_raw, seek_utf8_cp_start_left, seek_utf8_cp_start_right, str_eq_literal,
};

#[test]
fn test_seek_utf8_cp_start_left() {
    let s = "カブム！";
    assert_eq!(seek_utf8_cp_start_left(s, 0), 0);
    assert_eq!(seek_utf8_cp_start_left(s, 1), 0);
    assert_eq!(seek_utf8_cp_start_left(s, 2), 0);
    assert_eq!(seek_utf8_cp_start_left(s, 3), 3);
    assert_eq!(seek_utf8_cp_start_left(s, 4), 3);
    assert_eq!(seek_utf8_cp_start_left(s, 5), 3);
}

#[test]
fn test_seek_utf8_cp_start_right() {
    let s = "カブム！";
    assert_eq!(seek_utf8_cp_start_right(s, 0), 0);
    assert_eq!(seek_utf8_cp_start_right(s, 1), 3);
    assert_eq!(seek_utf8_cp_start_right(s, 2), 3);
    assert_eq!(seek_utf8_cp_start_right(s, 3), 3);
    assert_eq!(seek_utf8_cp_start_right(s, 4), 6);
    assert_eq!(seek_utf8_cp_start_right(s, 5), 6);
}

#[test]
fn test_str_eq_literal() {
    let s = "hare hare yukai";
    assert!(str_eq_literal(s, s));
    assert!(str_eq_literal(&s[0..4], &s[0..4]));
    assert!(!str_eq_literal(&s[0..4], &s[5..9]));
    assert!(!str_eq_literal(&s[0..4], &s[0..3]));
}

#[test]
fn test_encode_utf8_raw_one_byte() {
    let mut dst = vec![0u8; 4];
    assert_eq!(encode_utf8_raw('a' as u32, &mut dst), Some(1));
    assert_eq!(dst, vec![0x61, 0, 0, 0]);
}

#[test]
fn test_encode_utf8_raw_two_bytes() {
    let mut dst = vec![0u8; 4];
    assert_eq!(encode_utf8_raw(0xE9, &mut dst), Some(2));
    assert_eq!(dst, vec![0xC3, 0xA9, 0, 0]);
}

#[test]
fn test_encode_utf8_raw_three_bytes() {
    let mut dst = vec![0u8; 4];
    assert_eq!(encode_utf8_raw(0x20AC, &mut dst), Some(3));
    assert_eq!(dst, vec![0xE2, 0x82, 0xAC, 0]);
}

#[test]
fn test_encode_utf8_raw_four_bytes() {
    let mut dst = vec![0u8; 4];
    assert_eq!(encode_utf8_raw(0x1F600, &mut dst), Some(4));
    assert_eq!(dst, vec![0xF0, 0x9F, 0x98, 0x80]);
}

#[test]
fn test_encode_utf8_raw_too_small() {
    let mut dst = vec![0u8; 2];
    assert_eq!(encode_utf8_raw(0x20AC, &mut dst), None);
    assert_eq!(dst, vec![0, 0]);
    let mut empty: Vec<u8> = vec![];
    assert_eq!(encode_utf8_raw('a' as u32, &mut empty), None);
}
