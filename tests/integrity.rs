use asar::error::Error;
use asar::HashAlgorithm;

fn hex(bytes: &[u8]) -> String {
    bytes.iter().map(|b| format!("{:02x}", b)).collect()
}

#[test]
fn hash_len_is_32() {
    assert_eq!(HashAlgorithm::Sha256.hash_len(), 32);
}

#[test]
fn hash_known_digest() {
    let data = b"A common mistake that people make when trying to design something completely foolproof is to underestimate the ingenuity of complete fools.";
    let hash = HashAlgorithm::Sha256.hash(data);
    assert_eq!(
        hash,
        b"\x4f\x71\x68\x29\xf5\xd2\x95\xcb\x1a\x24\x33\xb5\x99\x39\xa3\xcf\xf7\x77\x2a\x9c\xb9\x13\x2c\x63\xbe\x56\x10\xfe\x52\x08\x65\x90"
    );
}

#[test]
fn hash_of_empty_input() {
    let hash = HashAlgorithm::Sha256.hash(b"");
    assert_eq!(
        hex(&hash),
        "e3b0c44298fc1c149afbf4c8996fb92427ae41e4649b934ca495991b7852b855"
    );
}

#[test]
fn hash_blocks_known_digests() {
    let data = "The ships hung in the sky in much the same way that bricks don't.";
    let hash = HashAlgorithm::Sha256.hash_blocks(25, data.as_bytes());
    assert_eq!(
        hash,
        vec![
            b"\x9d\x84\xeb\x91\x5a\x78\x2c\xc7\x2e\x74\x6d\x41\x62\x59\xe2\x28\xa2\x79\x03\x04\xf7\x6a\xa4\x20\x03\x3c\xf4\x50\xd7\x84\x26\x6c".to_vec(),
            b"\xdf\x78\xe6\x17\x28\xb6\x61\x8c\x55\x82\xb9\x00\x41\x96\x31\x2c\x24\x85\xe5\x83\xc2\x7b\xba\x8e\x2c\xbb\x1c\x36\x6f\x1a\x73\xad".to_vec(),
            b"\x7f\xda\x3f\x7b\x0e\x6d\x11\xc0\x61\x23\xff\x52\xd6\x10\xe1\xc3\xa3\xb7\x17\x22\xc0\x8b\xef\x0d\x96\x77\xc0\x46\x1c\x83\xf2\x4e".to_vec(),
        ]
    );
}

#[test]
fn hash_blocks_is_deterministic_and_counts_blocks() {
    let data: Vec<u8> = (0..100u8).collect();
    let a = HashAlgorithm::Sha256.hash_blocks(7, &data);
    let b = HashAlgorithm::Sha256.hash_blocks(7, &data);
    assert_eq!(a, b);
    assert_eq!(a.len(), 15);
    assert_eq!(HashAlgorithm::Sha256.hash_blocks(10, &data).len(), 10);
    assert_eq!(HashAlgorithm::Sha256.hash_blocks(1000, &data).len(), 1);
}

#[test]
fn hash_blocks_of_empty_input_is_empty() {
    assert!(HashAlgorithm::Sha256.hash_blocks(4, b"").is_empty());
}

#[test]
fn hash_blocks_last_block_is_the_remainder() {
    let data = b"abcdefghij";
    let blocks = HashAlgorithm::Sha256.hash_blocks(4, data);
    assert_eq!(blocks.len(), 3);
    assert_eq!(blocks[0], HashAlgorithm::Sha256.hash(b"abcd"));
    assert_eq!(blocks[1], HashAlgorithm::Sha256.hash(b"efgh"));
    assert_eq!(blocks[2], HashAlgorithm::Sha256.hash(b"ij"));
    assert_ne!(blocks[2], b"ij".to_vec());
}

#[test]
fn whole_digest_does_not_depend_on_chunking() {
    let data: Vec<u8> = (0..=255u8).cycle().take(1000).collect();
    let whole = HashAlgorithm::Sha256.hash(&data);
    let mut joined = Vec::new();
    for chunk in data.chunks(33) {
        joined.extend_from_slice(chunk);
    }
    assert_eq!(HashAlgorithm::Sha256.hash(&joined), whole);
    assert_eq!(whole.len(), 32);
}

#[test]
fn algorithm_names() {
    assert_eq!(HashAlgorithm::Sha256.name(), "SHA256");
    assert_eq!(HashAlgorithm::from_name("SHA256").unwrap(), HashAlgorithm::Sha256);
    assert_eq!(HashAlgorithm::from_name("  Sha-256\n").unwrap(), HashAlgorithm::Sha256);
    assert_eq!("sha256".parse::<HashAlgorithm>().unwrap(), HashAlgorithm::Sha256);
    assert_eq!(HashAlgorithm::from_folded_name("sha-256"), Some(HashAlgorithm::Sha256));
    assert_eq!(HashAlgorithm::from_folded_name("SHA256"), None);
    match HashAlgorithm::from_name(" md5 ") {
        Err(Error::InvalidHashAlgorithm(name)) => assert_eq!(name, " md5 "),
        other => panic!("unexpected result {:?}", other),
    }
}
