use dupfinder::hashing::{bytes_to_hex, compute_hash, HashAlgorithm};

#[test]
fn test_sha256_hash_output_length() {
    let hash = compute_hash(b"hello sha256", HashAlgorithm::SHA256);
    assert_eq!(hash.len(), 64);
}

#[test]
fn test_blake3_hash_output_length() {
    let hash = compute_hash(b"hello blake3", HashAlgorithm::Blake3);
    assert_eq!(hash.len(), 64);
}

#[test]
fn test_xxhash_output_length() {
    let hash = compute_hash(b"hello xxhash", HashAlgorithm::XxHash);
    assert_eq!(hash.len(), 16);
}

#[test]
fn sha256_known_vectors() {
    assert_eq!(
        compute_hash(b"abc", HashAlgorithm::SHA256),
        "ba7816bf8f01cfea414140de5dae2223b00361a396177a9cb410ff61f20015ad"
    );
    assert_eq!(
        compute_hash(b"", HashAlgorithm::SHA256),
        "e3b0c44298fc1c149afbf4c8996fb92427ae41e4649b934ca495991b7852b855"
    );
}

#[test]
fn equal_content_gives_equal_digest() {
    let algos = vec![HashAlgorithm::SHA256, HashAlgorithm::Blake3, HashAlgorithm::XxHash];
    for algo in algos {
        let a = compute_hash(b"same bytes, different file name", algo);
        let b = compute_hash(b"same bytes, different file name", algo);
        assert_eq!(a, b);
    }
}

#[test]
fn different_content_gives_different_digest() {
    let algos = vec![HashAlgorithm::SHA256, HashAlgorithm::Blake3, HashAlgorithm::XxHash];
    for algo in algos {
        let a = compute_hash(b"first content", algo);
        let b = compute_hash(b"second content", algo);
        assert_ne!(a, b);
    }
}

#[test]
fn digests_are_lowercase_hex() {
    let algos = vec![HashAlgorithm::SHA256, HashAlgorithm::Blake3, HashAlgorithm::XxHash];
    for algo in algos {
        let h = compute_hash(b"charset check", algo);
        for c in h.chars() {
            assert!(c.is_ascii_hexdigit());
            assert!(!c.is_ascii_uppercase());
        }
    }
}

#[test]
fn hex_encoding_of_bytes() {
    assert_eq!(bytes_to_hex(&[]), "");
    assert_eq!(bytes_to_hex(&[0x00, 0xff, 0x1a]), "00ff1a");
}
