use hashtable::{str_eq, str_hash};

#[test]
fn str_hash_of_empty_is_zero() {
    assert_eq!(str_hash(""), 0);
}

#[test]
fn str_hash_follows_the_polynomial() {
    // h("a") = 0 * 31 + 'a'; h("ab") = h("a") * 31 + 'b'.
    assert_eq!(str_hash("a"), 97);
    assert_eq!(str_hash("ab"), 97 * 31 + 98);
    assert_eq!(str_hash("abc"), (97 * 31 + 98) * 31 + 99);
}

#[test]
fn str_hash_depends_on_order() {
    assert_ne!(str_hash("ab"), str_hash("ba"));
}

#[test]
fn str_hash_of_non_ascii() {
    // A single character hashes to its scalar value.
    assert_eq!(str_hash("é"), 0xe9);
    assert_eq!(str_hash("日"), 0x65e5);
}

#[test]
fn str_eq_compares_characters() {
    assert!(str_eq("", ""));
    assert!(str_eq("abc", "abc"));
    assert!(!str_eq("abc", "abd"));
    assert!(!str_eq("abc", "ab"));
    assert!(!str_eq("ab", "ba"));
    assert!(str_eq("日本語", "日本語"));
    // Composed and decomposed forms are different character sequences.
    assert!(!str_eq("café", "caf\u{65}\u{301}"));
}
