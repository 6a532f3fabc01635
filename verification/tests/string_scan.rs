use smug::strings::{encode_utf16_le, encode_utf32_le, find_all, search_chunk};

#[test]
fn utf16_needles() {
    assert_eq!(encode_utf16_le("A"), vec![0x41, 0x00]);
    assert_eq!(encode_utf16_le("Hi"), vec![0x48, 0x00, 0x69, 0x00]);
    // U+00E9 stays one unit
    assert_eq!(encode_utf16_le("\u{e9}"), vec![0xe9, 0x00]);
    // U+1F600 becomes the surrogate pair D83D DE00, little endian
    assert_eq!(encode_utf16_le("\u{1f600}"), vec![0x3d, 0xd8, 0x00, 0xde]);
    assert_eq!(encode_utf16_le(""), Vec::<u8>::new());
}

#[test]
fn utf32_needles() {
    assert_eq!(encode_utf32_le("A"), vec![0x41, 0, 0, 0]);
    assert_eq!(encode_utf32_le("\u{1f600}"), vec![0x00, 0xf6, 0x01, 0x00]);
    assert_eq!(encode_utf32_le(""), Vec::<u8>::new());
}

#[test]
fn substring_occurrences() {
    assert_eq!(find_all(b"abcabcab", b"abc".to_vec()), vec![0, 3]);
    assert_eq!(find_all(b"aaaa", b"aa".to_vec()), vec![0, 1, 2]);
    assert_eq!(find_all(b"hay", b"needle".to_vec()), Vec::<usize>::new());
    assert_eq!(find_all(b"", b"x".to_vec()), Vec::<usize>::new());
}

#[test]
fn search_reports_absolute_addresses() {
    let hits = search_chunk(0x4000, b"..name..name.", b"name".to_vec());
    assert_eq!(hits, vec![0x4002, 0x4008]);
}

#[test]
fn search_for_wide_text() {
    let needle = encode_utf16_le("Hi");
    let mut buf = vec![0u8; 5];
    buf.extend_from_slice(&[0x48, 0x00, 0x69, 0x00]);
    assert_eq!(search_chunk(0, &buf, needle), vec![5]);
}
