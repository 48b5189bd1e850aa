use find_duplicates::hasher::{hash_bytes, Fingerprinter, HASH_BUFFER_SIZE};

#[test]
fn test_hash_file_consistent() {
    let hash1 = hash_bytes(b"hello world");
    let hash2 = hash_bytes(b"hello world");

    assert_eq!(hash1, hash2);
    // Known MD5 hash for "hello world"
    assert_eq!(hash1, "5eb63bbbe01eeed093cb22bb8f5acdc3");
}

#[test]
fn test_hash_file_different_content() {
    let hash1 = hash_bytes(b"content a");
    let hash2 = hash_bytes(b"content b");

    assert_ne!(hash1, hash2);
}

#[test]
fn hash_bytes_gives_known_digests() {
    assert_eq!(hash_bytes(b""), "d41d8cd98f00b204e9800998ecf8427e");
    assert_eq!(hash_bytes(b"a"), "0cc175b9c0f1b6a831c399e269772661");
    assert_eq!(hash_bytes(b"abc"), "900150983cd24fb0d6963f7d28e17f72");
    assert_eq!(hash_bytes(b"message digest"), "f96b697d7cb7938d525a2f31aaf161d0");
    assert_eq!(
        hash_bytes(b"The quick brown fox jumps over the lazy dog"),
        "9e107d9d372bb6826bd81d3542a419d6"
    );
}

#[test]
fn fingerprint_is_32_lower_case_hex_digits() {
    for content in [&b""[..], &b"x"[..], &b"some longer content\n"[..]] {
        let hash = hash_bytes(content);
        assert_eq!(hash.len(), 32);
        assert!(hash.chars().all(|c| c.is_ascii_digit() || ('a'..='f').contains(&c)));
    }
}

#[test]
fn fingerprinter_without_content_gives_the_empty_digest() {
    let hasher = Fingerprinter::new();
    assert_eq!(hasher.finish(), "d41d8cd98f00b204e9800998ecf8427e");
}

#[test]
fn feeding_in_chunks_equals_feeding_whole() {
    let content: Vec<u8> = (0..50_000u32).map(|i| (i * 31 % 251) as u8).collect();
    let whole = hash_bytes(&content);
    for chunk_size in [1usize, 7, 64, 1000, HASH_BUFFER_SIZE, 49_999, 50_000, 60_000] {
        let mut hasher = Fingerprinter::new();
        for chunk in content.chunks(chunk_size) {
            assert!(hasher.feed(chunk));
        }
        assert!(!hasher.feed(&[]));
        assert_eq!(hasher.finish(), whole);
    }
}

#[test]
fn feed_tells_whether_the_chunk_held_anything() {
    let mut hasher = Fingerprinter::new();
    assert!(hasher.feed(b"hello "));
    assert!(!hasher.feed(b""));
    assert!(hasher.feed(b"world"));
    assert!(!hasher.feed(b""));
    assert_eq!(hasher.finish(), "5eb63bbbe01eeed093cb22bb8f5acdc3");
}

#[test]
fn buffer_size_is_eight_kilobytes() {
    assert_eq!(HASH_BUFFER_SIZE, 8192);
}
