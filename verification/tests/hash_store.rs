use outpack::hash::{hash_data, matches_digest, to_hex, HashAlgorithm, HashError};
use outpack::reconcile::missing_files;
use outpack::store::{object_path, CommitAction, ObjectStore, StoreError};

const EMPTY_SHA256: &[u8] =
    b"sha256:e3b0c44298fc1c149afbf4c8996fb92427ae41e4649b934ca495991b7852b855";
const ABC_SHA256: &[u8] =
    b"sha256:ba7816bf8f01cfea414140de5dae2223b00361a396177a9cb410ff61f20015ad";
const ABC_MD5: &[u8] = b"md5:900150983cd24fb0d6963f7d28e17f72";

#[test]
fn sha256_of_known_inputs() {
    assert_eq!(hash_data(b"", HashAlgorithm::Sha256), EMPTY_SHA256.to_vec());
    assert_eq!(hash_data(b"abc", HashAlgorithm::Sha256), ABC_SHA256.to_vec());
}

#[test]
fn md5_of_known_inputs() {
    assert_eq!(
        hash_data(b"", HashAlgorithm::Md5),
        b"md5:d41d8cd98f00b204e9800998ecf8427e".to_vec()
    );
    assert_eq!(hash_data(b"abc", HashAlgorithm::Md5), ABC_MD5.to_vec());
}

#[test]
fn digest_is_not_its_input() {
    let h = outpack::hash::Hash::digest(b"abc", HashAlgorithm::Sha256);
    assert_eq!(h.algorithm, HashAlgorithm::Sha256);
    assert_eq!(h.hex.len(), 64);
    assert_ne!(h.hex, b"abc".to_vec());
}

#[test]
fn hex_encoding_is_lower_case_high_half_first() {
    assert_eq!(to_hex(&[0x00, 0x0f, 0xa5, 0xff]), b"000fa5ff".to_vec());
    assert_eq!(to_hex(&[]), Vec::<u8>::new());
}

#[test]
fn parse_reads_algorithm_and_hex() {
    let h = outpack::hash::Hash::parse(ABC_SHA256).unwrap();
    assert_eq!(h.algorithm, HashAlgorithm::Sha256);
    assert_eq!(h.hex, ABC_SHA256[7..].to_vec());
    let m = outpack::hash::Hash::parse(ABC_MD5).unwrap();
    assert_eq!(m.algorithm, HashAlgorithm::Md5);
    assert_eq!(m.hex, ABC_MD5[4..].to_vec());
}

#[test]
fn parse_then_format_is_identity() {
    let h = outpack::hash::Hash::parse(ABC_SHA256).unwrap();
    assert_eq!(h.format(), ABC_SHA256.to_vec());
    let again = outpack::hash::Hash::parse(&h.format()).unwrap();
    assert_eq!(again.algorithm, h.algorithm);
    assert_eq!(again.hex, h.hex);
}

#[test]
fn parse_rejects_malformed_text() {
    let bad: Vec<&[u8]> = vec![
        b"",
        b"sha256",
        b"sha256:",
        b"sha256:abc",
        b"md5:900150983cd24fb0d6963f7d28e17f7",
        b"md5:900150983cd24fb0d6963f7d28e17f72a",
        b"md5:900150983cd24fb0d6963f7d28e17f7g",
        b"md5:900150983CD24FB0D6963F7D28E17F72",
        b"sha1:900150983cd24fb0d6963f7d28e17f72",
        b"md5-900150983cd24fb0d6963f7d28e17f72",
        b"sha256:900150983cd24fb0d6963f7d28e17f72",
    ];
    for text in bad {
        assert_eq!(
            outpack::hash::Hash::parse(text).unwrap_err(),
            HashError::MalformedHash
        );
    }
}

#[test]
fn matches_digest_compares_whole_text() {
    assert!(matches_digest(ABC_SHA256, b"abc", HashAlgorithm::Sha256));
    assert!(!matches_digest(ABC_SHA256, b"abd", HashAlgorithm::Sha256));
    assert!(!matches_digest(ABC_MD5, b"abc", HashAlgorithm::Sha256));
    assert!(!matches_digest(b"nonsense", b"abc", HashAlgorithm::Sha256));
}

#[test]
fn object_path_is_sharded_by_two_digits() {
    let path = object_path(b"/srv/root", ABC_SHA256).unwrap();
    assert_eq!(
        path,
        b"/srv/root/.outpack/files/sha256/ba/7816bf8f01cfea414140de5dae2223b00361a396177a9cb410ff61f20015ad"
            .to_vec()
    );
    let md5 = object_path(b"r", ABC_MD5).unwrap();
    assert_eq!(md5, b"r/.outpack/files/md5/90/0150983cd24fb0d6963f7d28e17f72".to_vec());
}

#[test]
fn object_path_rejects_invalid_hash() {
    assert_eq!(object_path(b"/srv/root", b"sha256:xyz").unwrap_err(), StoreError::InvalidHash);
}

#[test]
fn commit_writes_new_object() {
    let mut store = ObjectStore::new(HashAlgorithm::Sha256);
    assert_eq!(store.algorithm(), HashAlgorithm::Sha256);
    assert!(!store.contains(ABC_SHA256));
    assert_eq!(store.commit(ABC_SHA256, b"abc"), Ok(CommitAction::Write));
    assert!(store.contains(ABC_SHA256));
    assert!(!store.contains(EMPTY_SHA256));
}

#[test]
fn commit_twice_is_a_no_op_success() {
    let mut store = ObjectStore::new(HashAlgorithm::Sha256);
    assert_eq!(store.commit(ABC_SHA256, b"abc"), Ok(CommitAction::Write));
    assert_eq!(store.commit(ABC_SHA256, b"abc"), Ok(CommitAction::AlreadyPresent));
    assert!(store.contains(ABC_SHA256));
    assert_eq!(store.missing(&vec![ABC_SHA256.to_vec()]), Vec::<Vec<u8>>::new());
}

#[test]
fn commit_with_mismatched_content_is_rejected() {
    let mut store = ObjectStore::new(HashAlgorithm::Sha256);
    // the content hashes to the digest of "abc", the claim names another one
    assert_eq!(store.commit(EMPTY_SHA256, b"abc"), Err(StoreError::HashMismatch));
    assert!(!store.contains(EMPTY_SHA256));
    assert!(!store.contains(ABC_SHA256));
}

#[test]
fn commit_under_another_algorithm_is_a_mismatch() {
    let mut store = ObjectStore::new(HashAlgorithm::Sha256);
    assert_eq!(store.commit(ABC_MD5, b"abc"), Err(StoreError::HashMismatch));
    assert!(!store.contains(ABC_MD5));
}

#[test]
fn missing_keeps_order_of_candidates() {
    let store =
        ObjectStore::from_inventory(HashAlgorithm::Sha256, vec![ABC_SHA256.to_vec()]);
    let candidates = vec![EMPTY_SHA256.to_vec(), ABC_SHA256.to_vec(), ABC_MD5.to_vec()];
    assert_eq!(store.missing(&candidates), vec![EMPTY_SHA256.to_vec(), ABC_MD5.to_vec()]);
    assert_eq!(missing_files(&store, &candidates), vec![EMPTY_SHA256.to_vec(), ABC_MD5.to_vec()]);
    assert_eq!(missing_files(&store, &Vec::new()), Vec::<Vec<u8>>::new());
}
