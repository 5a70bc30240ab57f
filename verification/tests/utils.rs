use vgstore::utils::{Escaper, StaticSliceMap};

#[test]
fn test_escaper() {
    assert_eq!("foo", "foo".escape());
    assert_eq!(
        "John said: \\\"Hello World!\\\"",
        "John said: \"Hello World!\"".escape()
    );
    assert_eq!(
        "John said: \\\"Hello World!\\\\\\\"",
        "John said: \"Hello World!\\\"".escape()
    );
}

#[test]
fn escape_control_characters() {
    assert_eq!("a\\tb\\nc\\rd\\be\\ff", "a\tb\nc\rd\u{08}e\u{0C}f".escape());
    assert_eq!("it\\'s", "it's".escape());
    assert_eq!("", "".escape());
    assert_eq!("été", "été".escape());
}

#[test]
fn escape_concatenation() {
    let a = "x\"y";
    let b = "\\z\n";
    let joined = format!("{a}{b}");
    assert_eq!(joined.as_str().escape(), format!("{}{}", a.escape(), b.escape()));
}

static KEYS: [u8; 3] = [1, 2, 2];
static VALUES: [&str; 3] = ["one", "two", "second two"];

#[test]
fn static_slice_map_get() {
    let map = StaticSliceMap::new(&KEYS, &VALUES);
    assert_eq!(map.get(1), Some("one"));
    assert_eq!(map.get(2), Some("two"));
    assert_eq!(map.get(3), None);
}
