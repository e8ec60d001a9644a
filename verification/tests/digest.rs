use deduplicator::digest::{sha256_digest, ContentHasher, DIGEST_LEN, MAX_DIGEST_INPUT};

fn hex(bytes: &[u8]) -> String {
    bytes.iter().map(|b| format!("{b:02x}")).collect()
}

#[test]
fn digest_of_abc_is_the_published_one() {
    let mut hasher = ContentHasher::new();
    assert!(hasher.update(b"abc"));
    let digest = hasher.finish();
    assert_eq!(digest.len(), DIGEST_LEN);
    assert_eq!(hex(&digest), "ba7816bf8f01cfea414140de5dae2223b00361a396177a9cb410ff61f20015ad");
}

#[test]
fn digest_of_nothing_is_the_published_one() {
    let digest = ContentHasher::new().finish();
    assert_eq!(hex(&digest), "e3b0c44298fc1c149afbf4c8996fb92427ae41e4649b934ca495991b7852b855");
    let chunks: Vec<Vec<u8>> = Vec::new();
    assert_eq!(sha256_digest(&chunks), Some(digest));
}

#[test]
fn chunking_makes_no_difference() {
    let content: Vec<u8> = (0..5000u32).map(|i| (i * 7 % 251) as u8).collect();
    let whole = sha256_digest(&vec![content.clone()]).unwrap();
    let by_kilobyte: Vec<Vec<u8>> = content.chunks(1024).map(|c| c.to_vec()).collect();
    assert_eq!(sha256_digest(&by_kilobyte).unwrap(), whole);
    let uneven = vec![content[..1].to_vec(), Vec::new(), content[1..63].to_vec(), content[63..].to_vec()];
    assert_eq!(sha256_digest(&uneven).unwrap(), whole);
    let mut hasher = ContentHasher::new();
    for byte in &content {
        assert!(hasher.update(&[*byte]));
    }
    assert_eq!(hasher.finish(), whole);
}

#[test]
fn different_content_has_a_different_digest() {
    let a = sha256_digest(&vec![b"hello world".to_vec()]).unwrap();
    let b = sha256_digest(&vec![b"hello worle".to_vec()]).unwrap();
    assert_ne!(a, b);
    assert_eq!(hex(&a), "b94d27b9934d3e08a52e52d7da7dabfac484efe37a5380ee9088f7ace2efcde9");
}

#[test]
fn the_digest_is_of_the_content_not_the_last_chunk() {
    let both = sha256_digest(&vec![b"ab".to_vec(), b"c".to_vec()]).unwrap();
    let last = sha256_digest(&vec![b"c".to_vec()]).unwrap();
    assert_ne!(both, last);
    assert_eq!(hex(&both), "ba7816bf8f01cfea414140de5dae2223b00361a396177a9cb410ff61f20015ad");
}

#[test]
fn the_input_limit_is_the_largest_bit_length() {
    assert_eq!(MAX_DIGEST_INPUT, u64::MAX / 8);
}
