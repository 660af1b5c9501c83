use the_third_sloppening::utf8::{text_or_invalid_notice, validate_utf8, InvalidUtf8};

#[test]
fn validates_utf8_with_simd() {
    let value = validate_utf8("hello 🌍".as_bytes()).expect("utf8");
    assert_eq!(value, "hello 🌍");
}

#[test]
fn rejects_malformed_utf8() {
    assert_eq!(validate_utf8(&[0x66, 0x6f, 0x80]), Err(InvalidUtf8));
    assert_eq!(validate_utf8(&[0xc0, 0xaf]), Err(InvalidUtf8));
    assert_eq!(validate_utf8(&[0xed, 0xa0, 0x80]), Err(InvalidUtf8));
    assert_eq!(validate_utf8(&[0xf0, 0x9f, 0x8c]), Err(InvalidUtf8));
}

#[test]
fn accepts_empty_and_returns_same_bytes() {
    assert_eq!(validate_utf8(b""), Ok(""));
    let bytes = "ünïcödé\n".as_bytes().to_vec();
    assert_eq!(validate_utf8(&bytes).unwrap().as_bytes(), &bytes[..]);
}

#[test]
fn invalid_files_open_as_a_notice() {
    assert_eq!(text_or_invalid_notice("héllo\n".as_bytes()), "héllo\n");
    assert_eq!(text_or_invalid_notice(&[0xff, 0x41]), "[file unavailable: invalid UTF-8]");
}
