use deny_core::{binary_search, contains, hash};

fn sorted_names() -> Vec<String> {
    vec![
        "adler".to_string(),
        "bitflags".to_string(),
        "libc".to_string(),
        "serde".to_string(),
        "syn".to_string(),
    ]
}

#[test]
fn binary_search_round_trip() {
    let s = sorted_names();
    for e in s.iter() {
        let i = binary_search(s.as_slice(), e).unwrap();
        assert_eq!(&s[i], e);
    }
}

#[test]
fn binary_search_insertion_position() {
    let s = sorted_names();
    assert_eq!(binary_search(s.as_slice(), &"aaa".to_string()), Err(0));
    assert_eq!(binary_search(s.as_slice(), &"cc".to_string()), Err(2));
    assert_eq!(binary_search(s.as_slice(), &"zzz".to_string()), Err(5));
    let empty: Vec<String> = Vec::new();
    assert_eq!(binary_search(empty.as_slice(), &"any".to_string()), Err(0));
}

#[test]
fn contains_works_unsorted() {
    let s = vec!["serde".to_string(), "adler".to_string(), "libc".to_string()];
    assert!(contains(s.as_slice(), &"adler".to_string()));
    assert!(contains(s.as_slice(), &"libc".to_string()));
    assert!(!contains(s.as_slice(), &"openssl".to_string()));
}

#[test]
fn hash_is_deterministic() {
    let data = b"cargo-lock-contents";
    assert_eq!(hash(data), hash(data));
    assert_eq!(hash(b""), hash(b""));
    assert_ne!(hash(b"a"), hash(b"b"));
}

#[test]
fn hash_matches_xxh32() {
    // the well-known XXH32 digest of the empty input with seed 0
    assert_eq!(hash(b""), 0x02CC_5D05);
    for data in [&b"abc"[..], &b"hello world"[..], &b"0123456789"[..]] {
        assert_eq!(hash(data), twox_hash::XxHash32::oneshot(0, data));
    }
}
