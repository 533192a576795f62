use butido::source::HashMismatch;
use butido::source::HashType;
use butido::source::HashValue;
use butido::source::Hasher;
use butido::source::SourceHash;

const SHA1_ABC: &str = "a9993e364706816aba3e25717850c26c9cd0d89d";
const SHA256_ABC: &str = "ba7816bf8f01cfea414140de5dae2223b00361a396177a9cb410ff61f20015ad";
const SHA512_ABC: &str = "ddaf35a193617abacc417349ae20413112e6fa4e89a97ea20a9eeee64b55d39a\
2192992a274fc1a836ba3c23a3feebbd454d4423643ce80e2a9ac94fa54ca49f";
const SHA256_EMPTY: &str = "e3b0c44298fc1c149afbf4c8996fb92427ae41e4649b934ca495991b7852b855";

#[test]
fn sha1_known_vector() {
    assert_eq!(HashType::Sha1.hash_bytes(b"abc").0, SHA1_ABC);
}

#[test]
fn sha256_known_vector() {
    assert_eq!(HashType::Sha256.hash_bytes(b"abc").0, SHA256_ABC);
}

#[test]
fn sha512_known_vector() {
    assert_eq!(HashType::Sha512.hash_bytes(b"abc").0, SHA512_ABC);
}

#[test]
fn sha256_empty_input() {
    assert_eq!(HashType::Sha256.hash_bytes(b"").0, SHA256_EMPTY);
}

#[test]
fn streaming_matches_one_shot_for_any_chunking() {
    let data: Vec<u8> = (0u16..4096).map(|i| (i % 251) as u8).collect();
    for t in [HashType::Sha1, HashType::Sha256, HashType::Sha512] {
        let one_shot = t.hash_bytes(&data);
        for chunk_size in [1usize, 7, 64, 1000, 4096, 10000] {
            let mut h = Hasher::new(&t);
            for chunk in data.chunks(chunk_size) {
                h.update(chunk);
            }
            assert_eq!(h.finish(), one_shot);
        }
    }
}

#[test]
fn hash_chunks_matches_one_shot() {
    let chunks: Vec<Vec<u8>> = vec![b"ab".to_vec(), b"".to_vec(), b"c".to_vec()];
    let whole = HashType::Sha256.hash_bytes(b"abc");
    assert_eq!(HashType::Sha256.hash_chunks(&chunks), whole);
}

#[test]
fn matches_hash_of_accepts_correct_hash() {
    let declared = SourceHash::new(HashType::Sha256, HashValue::from(String::from(SHA256_ABC)));
    assert!(declared.matches_hash_of(b"abc").is_ok());
}

#[test]
fn matches_hash_of_rejects_wrong_hash() {
    let declared = SourceHash::new(HashType::Sha256, HashValue::from(String::from(SHA256_EMPTY)));
    let got: Result<(), HashMismatch> = declared.matches_hash_of(b"abc");
    let e = got.err().expect("hash mismatch must be reported");
    assert_eq!(e.expected.0, SHA256_EMPTY);
    assert_eq!(e.got.0, SHA256_ABC);
}

#[test]
fn matches_hash_of_depends_on_algorithm() {
    let declared = SourceHash::new(HashType::Sha1, HashValue::from(String::from(SHA256_ABC)));
    assert!(declared.matches_hash_of(b"abc").is_err());
}

#[test]
fn hash_type_names() {
    assert_eq!(HashType::Sha1.name(), "sha1");
    assert_eq!(HashType::Sha256.name(), "sha256");
    assert_eq!(HashType::Sha512.name(), "sha512");
}

#[test]
fn every_consumed_source_is_verified_unless_disabled() {
    let good = SourceHash::new(HashType::Sha256, HashValue::from(String::from(SHA256_ABC)));
    let bad = SourceHash::new(HashType::Sha256, HashValue::from(String::from(SHA256_EMPTY)));
    let declared = vec![good, bad];
    let contents = vec![b"abc".to_vec(), b"abc".to_vec()];
    let err = butido::source::verify_all(&declared, &contents, true)
        .err()
        .expect("the second source must fail verification");
    assert_eq!(err.source, 1);
    assert_eq!(err.mismatch.expected.0, SHA256_EMPTY);
    assert_eq!(err.mismatch.got.0, SHA256_ABC);
    assert!(butido::source::verify_all(&declared, &contents, false).is_ok());
    let all_good = vec![
        SourceHash::new(HashType::Sha256, HashValue::from(String::from(SHA256_ABC))),
    ];
    assert!(butido::source::verify_all(&all_good, &vec![b"abc".to_vec()], true).is_ok());
}
