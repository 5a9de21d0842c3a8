use merkle_trie::codec::{decode_plan, encode_node, ChildRef};
use merkle_trie::nibbles::{pack_nibbles, to_nibbles, u8_to_hex_vec, unpack_nibbles};
use merkle_trie::node::Node;
use merkle_trie::store::NodeStore;

#[test]
fn to_nibbles_splits_bytes() {
    assert_eq!(to_nibbles(&[0xab, 0x04]), vec![0xa, 0xb, 0x0, 0x4]);
    assert_eq!(to_nibbles(&[]), Vec::<u8>::new());
}

#[test]
fn pack_unpack_even_and_odd() {
    let even = vec![0x6u8, 0x4, 0x6, 0xf];
    let packed = pack_nibbles(&even);
    assert_eq!(packed, vec![0x64u8, 0x6f]);
    assert_eq!(unpack_nibbles(&packed, 4), even);

    let odd = vec![0x6u8, 0x4, 0x6];
    let packed = pack_nibbles(&odd);
    assert_eq!(packed, vec![0x06u8, 0x46]);
    assert_eq!(unpack_nibbles(&packed, 3), odd);
}

#[test]
fn hex_text() {
    assert_eq!(u8_to_hex_vec(&[0xde, 0xad, 0x01]), b"dead01".to_vec());
    assert_eq!(u8_to_hex_vec(&[]), Vec::<u8>::new());
}

#[test]
fn leaf_round_trip() {
    let n = Node::Leaf { path: vec![0x6, 0x4, 0x6], value: b"puppy".to_vec() };
    let mut store = NodeStore::new();
    let enc = encode_node(&n, &mut store);
    let plan = decode_plan(&enc).expect("a leaf encoding decodes");
    assert_eq!(plan.tag, 1);
    assert_eq!(plan.path_count, 3);
    assert_eq!(plan.path_packed, vec![0x06u8, 0x46]);
    assert_eq!(plan.value, Some(b"puppy".to_vec()));
}

#[test]
fn empty_round_trip() {
    let n = Node::Empty;
    let mut store = NodeStore::new();
    let enc = encode_node(&n, &mut store);
    assert_eq!(enc, vec![0u8]);
    let plan = decode_plan(&enc).expect("the empty encoding decodes");
    assert_eq!(plan.tag, 0);
}

#[test]
fn branch_round_trip_inline_and_hashed_children() {
    // one small child (embedded inline) and one large child (stored by digest)
    let mut children = Vec::new();
    for _ in 0..16 {
        children.push(Node::Empty);
    }
    children[4] = Node::Leaf { path: vec![0x7], value: b"x".to_vec() };
    children[8] = Node::Leaf { path: vec![0x5], value: vec![0xaa; 64] };
    let n = Node::Branch { path: vec![0x6], value: Some(b"here".to_vec()), children };

    let mut store = NodeStore::new();
    let enc = encode_node(&n, &mut store);
    let plan = decode_plan(&enc).expect("a branch encoding decodes");
    assert_eq!(plan.tag, 3);
    assert_eq!(plan.path_count, 1);
    assert_eq!(plan.value, Some(b"here".to_vec()));
    assert_eq!(plan.children.len(), 16);
    for (i, c) in plan.children.iter().enumerate() {
        match i {
            4 => match c {
                Some(ChildRef::Inline(bytes)) => {
                    let sub = decode_plan(bytes).expect("inline child decodes");
                    assert_eq!(sub.tag, 1);
                    assert_eq!(sub.value, Some(b"x".to_vec()));
                }
                _ => panic!("slot 4 must be inline"),
            },
            8 => match c {
                Some(ChildRef::Hash(d)) => {
                    let stored = store.get(d).expect("hashed child is stored");
                    let sub = decode_plan(&stored).expect("stored child decodes");
                    assert_eq!(sub.tag, 1);
                    assert_eq!(sub.value, Some(vec![0xaa; 64]));
                }
                _ => panic!("slot 8 must be hashed"),
            },
            _ => assert!(c.is_none()),
        }
    }
}

#[test]
fn malformed_bytes_are_rejected() {
    assert!(decode_plan(&[]).is_none());
    assert!(decode_plan(&[9u8]).is_none());
    // a leaf header that promises more path bytes than exist
    assert!(decode_plan(&[1u8, 200, 0, 0, 0, 0, 0, 0, 0]).is_none());
}
