use findex::hashing::{hash_bytes, ContentHasher};

#[test]
fn known_sha256_signatures() {
    assert_eq!(
        "e3b0c44298fc1c149afbf4c8996fb92427ae41e4649b934ca495991b7852b855",
        hash_bytes(b""),
    );
    assert_eq!(
        "ba7816bf8f01cfea414140de5dae2223b00361a396177a9cb410ff61f20015ad",
        hash_bytes(b"abc"),
    );
}

#[test]
fn identical_content_identical_signature() {
    let first = hash_bytes(b"some file content");
    let second = hash_bytes(b"some file content");
    assert_eq!(first, second);
    assert_ne!(first, hash_bytes(b"other file content"));
}

#[test]
fn streaming_equals_whole_buffer() {
    let mut hasher = ContentHasher::new();
    hasher.update(b"some file");
    hasher.update(b" content");
    assert_eq!(hash_bytes(b"some file content"), hasher.finalize_hex());
}

#[test]
fn signature_is_lowercase_hex_of_fixed_length() {
    let sig = hash_bytes(b"anything");
    assert_eq!(64, sig.len());
    assert!(sig.chars().all(|c| c.is_ascii_digit() || ('a'..='f').contains(&c)));
}
