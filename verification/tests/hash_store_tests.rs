use merkle_trie::hashing::{blake2_128, blake2_256, blake2_512, twox_128, twox_64, Blake2Hasher};
use merkle_trie::store::NodeStore;

#[test]
fn blake2_256_known_vector() {
    let d = blake2_256(b"");
    assert_eq!(
        hex::encode(&d),
        "0e5751c026e543b2e8ab2eb06099daa1d1e5df47778f7787faab45cdf12fe3a8"
    );
}

#[test]
fn blake2_512_known_vector() {
    let d = blake2_512(b"");
    assert_eq!(
        hex::encode(&d),
        "786a02f742015903c6c6fd852552d272912f4740e15847618a86e217f71f5419\
         d25e1031afee585313896444934eb04b903a685b1448b755d56f701afe9be2ce"
    );
}

#[test]
fn twox_known_vectors() {
    assert_eq!(hex::encode(twox_64(b"")), "99e9d85137db46ef");
    assert_eq!(hex::encode(twox_128(b"")), "99e9d85137db46ef4bbea33613baafd5");
}

#[test]
fn digests_are_deterministic_with_fixed_lengths() {
    for input in [b"".as_slice(), b"abc", &[0u8; 300]] {
        assert_eq!(blake2_512(input), blake2_512(input));
        assert_eq!(blake2_512(input).len(), 64);
        assert_eq!(blake2_256(input), blake2_256(input));
        assert_eq!(blake2_256(input).len(), 32);
        assert_eq!(blake2_128(input), blake2_128(input));
        assert_eq!(blake2_128(input).len(), 16);
        assert_eq!(twox_64(input), twox_64(input));
        assert_eq!(twox_64(input).len(), 8);
        assert_eq!(twox_128(input), twox_128(input));
        assert_eq!(twox_128(input).len(), 16);
    }
}

#[test]
fn node_hash_is_blake2_256() {
    assert_eq!(Blake2Hasher::hash(b"abc"), blake2_256(b"abc"));
}

#[test]
fn store_deduplicates_and_counts_references() {
    let mut s = NodeStore::new();
    let d1 = s.put(&b"node one".to_vec());
    let d2 = s.put(&b"node one".to_vec());
    assert_eq!(d1, d2);
    assert_eq!(s.entries.len(), 1);
    assert_eq!(s.entries[0].refcount, 2);
    assert_eq!(d1, blake2_256(b"node one"));

    assert_eq!(s.get(&d1), Some(b"node one".to_vec()));
    s.remove(&d1);
    assert_eq!(s.get(&d1), Some(b"node one".to_vec()));
    s.remove(&d1);
    assert_eq!(s.get(&d1), None);
}

#[test]
fn store_remove_unknown_digest_is_noop() {
    let mut s = NodeStore::new();
    let d = s.put(&b"kept".to_vec());
    s.remove(&blake2_256(b"never stored"));
    assert_eq!(s.get(&d), Some(b"kept".to_vec()));
    assert_eq!(s.entries.len(), 1);
}

#[test]
fn store_clear_empties() {
    let mut s = NodeStore::new();
    let _ = s.put(&b"a".to_vec());
    let _ = s.put(&b"b".to_vec());
    s.clear();
    assert_eq!(s.entries.len(), 0);
}
