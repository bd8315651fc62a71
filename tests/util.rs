use cmdparse::util::u8_str_equal;

#[test]
fn str_equal_compares_up_to_terminator() {
    assert!(u8_str_equal(b"rb\0\0\0", b"rb\0"));
    assert!(!u8_str_equal(b"rd\0\0\0", b"rb\0"));
    assert!(!u8_str_equal(b"rbx\0\0", b"rb\0"));
    assert!(!u8_str_equal(b"rb", b"rb"));
    assert!(u8_str_equal(b"\0", b"\0abc"));
    assert!(!u8_str_equal(b"", b""));
}
