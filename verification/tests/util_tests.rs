use resource_sync::util::{hash, simplify_str, split_path, str_eq};

#[test]
fn simplify_str_test() {
    assert_eq!(simplify_str("Spork!!!1one"), "spork1one".to_string());
    assert_eq!(simplify_str("  5_W_E_L_L  "), "5well".to_string());
}

#[test]
fn hash_test() {
    let vec = vec![
        2u8, 3, 4, 5, 2, 10, 200, 210, 36, 46, 56, 66, 76, 86, 96, 106, 0, 7, 14, 21, 28, 35, 42,
        49,
    ];
    assert_eq!(hash(&vec), 13305986590338460966);
}

#[test]
fn hash_is_deterministic() {
    let data = vec![1u8, 2, 3, 4, 5, 6, 7, 8, 9];
    assert_eq!(hash(&data), hash(&data));
    let copy = data.clone();
    assert_eq!(hash(&data), hash(&copy));
}

#[test]
fn hash_small_values() {
    // A single byte is read as the low byte of one little-endian window.
    assert_eq!(hash(&vec![7u8]), 7);
    assert_eq!(hash(&vec![]), 0);
}

#[test]
fn simplify_is_idempotent() {
    let once = simplify_str("Foo:Bar-1 baz!");
    let twice = simplify_str(&once);
    assert_eq!(once, twice);
}

#[test]
fn simplify_is_case_insensitive() {
    assert_eq!(simplify_str("Foo"), simplify_str("foo"));
    assert_eq!(simplify_str("DOOR"), "door".to_string());
}

#[test]
fn simplify_keeps_namespace_separator() {
    assert_eq!(simplify_str("core:Door"), "core:door".to_string());
}

#[test]
fn split_path_parts() {
    let (stem, ext) = split_path("gamedata/core/door.what");
    assert_eq!(stem, "door".to_string());
    assert_eq!(ext, "what".to_string());

    let (stem, ext) = split_path("door");
    assert_eq!(stem, "door".to_string());
    assert_eq!(ext, "".to_string());

    let (stem, ext) = split_path("pkg/_metadata.json");
    assert_eq!(stem, "_metadata".to_string());
    assert_eq!(ext, "json".to_string());

    let (stem, ext) = split_path("pkg/.hidden");
    assert_eq!(stem, ".hidden".to_string());
    assert_eq!(ext, "".to_string());
}

#[test]
fn str_eq_compares_contents() {
    assert!(str_eq("abc", "abc"));
    assert!(!str_eq("abc", "abd"));
    assert!(!str_eq("abc", "ab"));
}
