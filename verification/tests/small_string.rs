use vgstore::small_string::{BadSmallStringError, SmallString};

#[test]
fn small_string_holds_at_most_fifteen_bytes() {
    let mut bytes = [b'a'; 16];
    bytes[15] = 16;
    assert!(matches!(SmallString::from_be_bytes(bytes), Err(BadSmallStringError::TooLong(16))));
    bytes[15] = 200;
    assert!(matches!(SmallString::from_be_bytes(bytes), Err(BadSmallStringError::TooLong(200))));
    bytes[15] = 15;
    let s = SmallString::from_be_bytes(bytes).unwrap();
    assert_eq!(s.len(), 15);
    let t = SmallString::from_utf8(s.as_bytes()).unwrap();
    assert_eq!(t.as_str(), "aaaaaaaaaaaaaaa");
    assert!(matches!(
        SmallString::from_utf8(b"0123456789abcdef"),
        Err(BadSmallStringError::TooLong(16))
    ));
}
