use mls_tree::{prefix_pattern, sanitize, Item};

#[test]
fn sanitize_escapes_wildcards() {
    assert_eq!(sanitize("a_b%c"), "a$_b$%c");
    assert_eq!(sanitize("%$_ƕ❤_"), "$%$$$_ƕ❤$_");
    assert_eq!(sanitize("$a"), "$$a");
    assert_eq!(sanitize(""), "");
    assert_eq!(sanitize("plain"), "plain");
}

#[test]
fn prefix_pattern_appends_wildcard() {
    assert_eq!(prefix_pattern("prefix"), "prefix%");
    assert_eq!(prefix_pattern(""), "%");
    assert_eq!(prefix_pattern("x_"), "x$_%");
    assert_eq!(prefix_pattern("x$%"), "x$$$%%");
}

#[test]
fn item_accessors() {
    let item = Item::new("key".to_string(), vec![1, 2, 3]);
    assert_eq!(item.key(), "key");
    assert_eq!(item.value(), &[1, 2, 3]);
    assert_eq!(item, Item { key: "key".to_string(), value: vec![1, 2, 3] });
}
