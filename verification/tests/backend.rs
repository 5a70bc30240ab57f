use vgstore::backend::{compare_bytes, starts_with, Cmp, CompactionAction, Tree};

#[test]
fn backend_compares_bytes_lexicographically() {
    assert_eq!(compare_bytes(b"abc", b"abd"), Cmp::Less);
    assert_eq!(compare_bytes(b"ab", b"abc"), Cmp::Less);
    assert_eq!(compare_bytes(b"abc", b"abc"), Cmp::Equal);
    assert_eq!(compare_bytes(b"b", b"abc"), Cmp::Greater);
    assert_eq!(compare_bytes(b"", b""), Cmp::Equal);
    assert!(starts_with(b"abc", b"ab"));
    assert!(starts_with(b"abc", b""));
    assert!(!starts_with(b"ab", b"abc"));
    assert!(!starts_with(b"abc", b"b"));
}

#[test]
fn backend_tree_keeps_keys_in_order() {
    let mut t = Tree::new();
    t.insert(b"b", b"2");
    t.insert(b"a", b"1");
    t.insert(b"ab", b"3");
    t.insert(b"b", b"4");
    assert_eq!(t.len(), 3);
    assert_eq!(t.get(b"b"), Some(b"4".to_vec()));
    assert_eq!(t.get(b"c"), None);
    assert!(t.contains_key(b"ab"));
    assert_eq!(t.keys_with_prefix(b"a"), vec![b"a".to_vec(), b"ab".to_vec()]);
    assert_eq!(t.keys_with_prefix(b""), vec![b"a".to_vec(), b"ab".to_vec(), b"b".to_vec()]);
    assert!(t.remove(b"a"));
    assert!(!t.remove(b"a"));
    assert_eq!(t.keys_with_prefix(b"a"), vec![b"ab".to_vec()]);
    t.clear();
    assert!(t.is_empty());
}

#[test]
fn backend_writes_as_the_filter_decides() {
    let mut t = Tree::new();
    t.write_filtered(b"k", b"v", CompactionAction::Keep);
    assert_eq!(t.get(b"k"), Some(b"v".to_vec()));
    t.write_filtered(b"k", b"w", CompactionAction::Replace(b"x".to_vec()));
    assert_eq!(t.get(b"k"), Some(b"x".to_vec()));
    t.write_filtered(b"k", b"y", CompactionAction::Remove);
    assert_eq!(t.get(b"k"), None);
    t.write_filtered(b"n", b"y", CompactionAction::Remove);
    assert!(t.is_empty());
}
