use cologna_karaoke::http::urlencode;

#[test]
fn encodes_reserved_and_utf8_bytes() {
    assert_eq!(urlencode("a b-c_d.e~f"), "a%20b-c_d.e~f");
    assert_eq!(urlencode("è&"), "%C3%A8%26");
}

#[test]
fn encodes_empty_and_percent() {
    assert_eq!(urlencode(""), "");
    assert_eq!(urlencode("100%/x"), "100%25%2Fx");
}

#[test]
fn unreserved_text_is_left_as_is_and_escapes_are_upper_hex() {
    assert_eq!(urlencode("Az09-_.~"), "Az09-_.~");
    assert_eq!(urlencode("a/b?"), "a%2Fb%3F");
    assert_ne!(urlencode("a b"), "a b");
}
