use merkle_trie::trie::JsTrie;

fn b(s: &str) -> Vec<u8> {
    s.as_bytes().to_vec()
}

#[test]
fn get_after_insert_uncommitted() {
    let mut t = JsTrie::new();
    assert!(t.insert(&b("dog"), &b("puppy")));
    assert_eq!(t.get(&b("dog")), Some(b("puppy")));
}

#[test]
fn get_after_insert_committed() {
    let mut t = JsTrie::new();
    assert!(t.insert(&b("dog"), &b("puppy")));
    assert!(t.commit());
    assert_eq!(t.get(&b("dog")), Some(b("puppy")));
}

#[test]
fn get_missing_key() {
    let mut t = JsTrie::new();
    assert!(t.insert(&b("dog"), &b("puppy")));
    assert_eq!(t.get(&b("cat")), None);
    assert_eq!(t.get(&b("do")), None);
    assert_eq!(t.get(&b("dogs")), None);
}

#[test]
fn overwrite_value() {
    let mut t = JsTrie::new();
    assert!(t.insert(&b("dog"), &b("puppy")));
    assert!(t.insert(&b("dog"), &b("hound")));
    assert_eq!(t.get(&b("dog")), Some(b("hound")));
}

#[test]
fn empty_key_and_empty_value() {
    let mut t = JsTrie::new();
    assert!(t.insert(&Vec::new(), &b("rootval")));
    assert!(t.insert(&b("k"), &Vec::new()));
    assert_eq!(t.get(&Vec::new()), Some(b("rootval")));
    assert_eq!(t.get(&b("k")), Some(Vec::new()));
}

#[test]
fn remove_then_absent() {
    let mut t = JsTrie::new();
    assert!(t.insert(&b("dog"), &b("puppy")));
    assert!(t.insert(&b("doge"), &b("coin")));
    assert!(t.remove(&b("doge")));
    assert_eq!(t.get(&b("doge")), None);
    assert_eq!(t.get(&b("dog")), Some(b("puppy")));
}

#[test]
fn remove_recollapses_structure() {
    // after removing a key, the tree must re-collapse to the shape it
    // would have had without that key: the committed roots agree
    let mut a = JsTrie::new();
    assert!(a.insert(&b("dog"), &b("puppy")));
    assert!(a.insert(&b("horse"), &b("stallion")));
    assert!(a.commit());

    let mut c = JsTrie::new();
    assert!(c.insert(&b("dog"), &b("puppy")));
    assert!(c.insert(&b("horse"), &b("stallion")));
    assert!(c.insert(&b("doge"), &b("coin")));
    assert!(c.remove(&b("doge")));
    assert!(c.commit());

    assert_eq!(a.root(), c.root());
}

#[test]
fn remove_absent_key_is_noop_success() {
    let mut t = JsTrie::new();
    assert!(t.insert(&b("dog"), &b("puppy")));
    assert!(t.commit());
    let root_before = t.root();
    assert!(t.remove(&b("giraffe")));
    assert_eq!(t.root(), root_before);
    assert!(t.commit());
    assert_eq!(t.root(), root_before);
    assert_eq!(t.get(&b("dog")), Some(b("puppy")));
}

#[test]
fn empty_trie_root_is_canonical() {
    let t = JsTrie::new();
    // the empty trie's root is the digest of the empty node's encoding
    let expected = merkle_trie::hashing::blake2_256(&[0u8]);
    assert_eq!(t.root(), expected);
}

#[test]
fn empty_root_survives_noop_cycles() {
    let t0 = JsTrie::new();
    let mut t = JsTrie::new();
    assert!(t.insert(&b("dog"), &b("puppy")));
    assert!(t.remove(&b("dog")));
    assert!(t.commit());
    assert_eq!(t.root(), t0.root());
}

#[test]
fn idempotent_commit() {
    let mut t = JsTrie::new();
    assert!(t.insert(&b("dog"), &b("puppy")));
    assert!(t.commit());
    let r1 = t.root();
    assert!(t.commit());
    assert_eq!(t.root(), r1);
}

#[test]
fn insertion_order_does_not_change_root() {
    let pairs = [
        ("dog", "puppy"),
        ("doge", "coin"),
        ("horse", "stallion"),
        ("do", "verb"),
        ("dogecoin", "meme"),
    ];
    let mut a = JsTrie::new();
    for (k, v) in pairs.iter() {
        assert!(a.insert(&b(k), &b(v)));
    }
    assert!(a.commit());
    let mut c = JsTrie::new();
    for (k, v) in pairs.iter().rev() {
        assert!(c.insert(&b(k), &b(v)));
    }
    assert!(c.commit());
    assert_eq!(a.root(), c.root());
}

#[test]
fn clear_resets_to_empty() {
    let mut t = JsTrie::new();
    assert!(t.insert(&b("dog"), &b("puppy")));
    assert!(t.commit());
    t.clear();
    assert_eq!(t.get(&b("dog")), None);
    assert_eq!(t.root(), JsTrie::new().root());
    assert_eq!(t.values().len(), 0);
}

#[test]
fn values_dump_is_content_addressed() {
    let mut t = JsTrie::new();
    assert!(t.insert(&b("dog"), &b("puppy")));
    assert!(t.insert(&b("horse"), &b("stallion")));
    assert!(t.commit());
    let dump = t.values();
    assert!(dump.len() >= 1);
    let root = t.root();
    assert!(dump.iter().any(|(d, _)| *d == root));
    for (d, bytes) in dump.iter() {
        assert_eq!(*d, merkle_trie::hashing::blake2_256(bytes));
    }
}

#[test]
fn scenario_three_records() {
    let mut t = JsTrie::new();
    assert!(t.insert(&b("dog"), &b("puppy")));
    assert!(t.insert(&b("doge"), &b("coin")));
    assert!(t.insert(&b("horse"), &b("stallion")));
    assert!(t.commit());
    assert_eq!(t.get(&b("dog")), Some(b("puppy")));
    assert_eq!(t.get(&b("doge")), Some(b("coin")));
    assert_eq!(t.get(&b("horse")), Some(b("stallion")));

    // regression fixture: the root digest is pinned
    let root_hex = hex::encode(t.root());
    assert_eq!(
        root_hex,
        "33ccb226f2f05171466b0cdde461f820a0ed81e8af38b40a6378a0da06f2351d"
    );

    // the committed structure: keys "dog"/"doge" share nibbles 6,4,...
    // while "horse" starts 6,8,..., so the root is an extended branch over
    // the shared nibble 6, with children selected by 4 and 8
    let rec = t.db_values().expect("committed root must materialise");
    assert_eq!(rec.node_type, b("Branch"));
    assert_eq!(rec.nibbles.as_ref().expect("root has a nibble prefix"), &b("6"));
    let kids = rec.children.expect("root has children");
    assert_eq!(kids.len(), 2);
    assert_eq!(kids[0].parent_nibble, Some(b'4'));
    assert_eq!(kids[1].parent_nibble, Some(b'8'));
}

#[test]
fn db_values_empty_trie() {
    // an empty trie materialises as nothing: fresh, committed-empty, or
    // emptied again after holding a key
    let t = JsTrie::new();
    assert!(t.db_values().is_none());

    let mut u = JsTrie::new();
    assert!(u.insert(&b("x"), &b("y")));
    assert!(u.remove(&b("x")));
    assert!(u.commit());
    assert!(u.db_values().is_none());

    let mut w = JsTrie::new();
    assert!(w.insert(&b("x"), &b("y")));
    assert!(w.commit());
    assert!(w.db_values().is_some());
    assert!(w.remove(&b("x")));
    assert!(w.commit());
    assert!(w.db_values().is_none());
}

#[test]
fn mutations_leave_store_untouched_until_commit() {
    let mut t = JsTrie::new();
    assert_eq!(t.values().len(), 0);
    assert!(t.insert(&b("dog"), &b("puppy")));
    assert_eq!(t.values().len(), 0);
    assert!(t.commit());
    let dump = t.values();
    assert!(!dump.is_empty());
    assert!(t.remove(&b("giraffe")));
    assert_eq!(t.values().len(), dump.len());
    assert!(t.commit());
    assert_eq!(t.values().len(), dump.len());
}

#[test]
fn many_keys_round_trip() {
    let mut t = JsTrie::new();
    let mut keys: Vec<Vec<u8>> = Vec::new();
    for i in 0..200u32 {
        let k = i.to_be_bytes().to_vec();
        let v = (i * 7 + 1).to_le_bytes().to_vec();
        assert!(t.insert(&k, &v));
        keys.push(k);
    }
    assert!(t.commit());
    for (i, k) in keys.iter().enumerate() {
        let v = ((i as u32) * 7 + 1).to_le_bytes().to_vec();
        assert_eq!(t.get(k), Some(v));
    }
    for (i, k) in keys.iter().enumerate() {
        if i % 2 == 0 {
            assert!(t.remove(k));
        }
    }
    assert!(t.commit());
    for (i, k) in keys.iter().enumerate() {
        if i % 2 == 0 {
            assert_eq!(t.get(k), None);
        } else {
            let v = ((i as u32) * 7 + 1).to_le_bytes().to_vec();
            assert_eq!(t.get(k), Some(v));
        }
    }
}
