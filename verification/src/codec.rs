//! The node codec.
//!
//! A node's encoding is self-describing: a leading discriminator byte, the
//! nibble path (count, then packed bytes) for leaves and extended branches,
//! the value bytes behind a presence flag and length, and for branches a
//! 16-slot child-presence table followed by each present child's reference.
//! A child reference embeds the child's encoding inline when it is shorter
//! than a digest, and otherwise carries the 32-byte digest under which the
//! child is stored.
//!
//! All lengths are 8-byte little-endian words, so any in-memory buffer is
//! encodable.

use vstd::prelude::*;
use crate::hashing::digest256;
use crate::nibbles::{nibbles_ok, pack_nibbles, packed_nibbles};
use crate::node::{lookup, opt_bytes, wf, Node};
use crate::store::{bytes_for, has_digest, store_wf, NodeStore};

verus! {

/// The discriminator bytes.
pub open spec fn tag_empty() -> u8 {
    0
}

pub open spec fn tag_leaf() -> u8 {
    1
}

pub open spec fn tag_branch() -> u8 {
    2
}

pub open spec fn tag_nibbled_branch() -> u8 {
    3
}

/// An 8-byte little-endian length word.
pub open spec fn enc_u64(x: int) -> Seq<u8> {
    seq![
        (x % 256) as u8,
        ((x / 256) % 256) as u8,
        ((x / 65536) % 256) as u8,
        ((x / 16777216) % 256) as u8,
        ((x / 4294967296) % 256) as u8,
        ((x / 1099511627776) % 256) as u8,
        ((x / 281474976710656) % 256) as u8,
        ((x / 72057594037927936) % 256) as u8,
    ]
}

/// The nibble-path field: count, then the packed nibbles.
pub open spec fn enc_path(p: Seq<u8>) -> Seq<u8> {
    enc_u64(p.len() as int) + packed_nibbles(p)
}

/// The optional-value field: a presence flag, then length and bytes.
pub open spec fn enc_value(v: Option<Vec<u8>>) -> Seq<u8> {
    match v {
        Some(b) => seq![1u8] + enc_u64(b@.len() as int) + b@,
        None => seq![0u8],
    }
}

/// The 16-slot child-presence table: one byte per slot.
pub open spec fn presence(s: Seq<Node>) -> Seq<u8> {
    Seq::new(16, |m: int| if s[m] is Empty { 0u8 } else { 1u8 })
}

/// One child reference: the child's encoding inline when it is shorter
/// than a digest, else the digest of the stored child.
pub open spec fn child_ref_enc(c: Node) -> Seq<u8>
    decreases c, 19int,
{
    if c is Empty {
        Seq::empty()
    } else {
        let e = encoded(c);
        if e.len() < 32 {
            seq![0u8] + enc_u64(e.len() as int) + e
        } else {
            seq![1u8] + digest256(e)
        }
    }
}

/// The child references from slot `m` on, in ascending slot order.
pub open spec fn children_enc(s: Seq<Node>, m: int) -> Seq<u8>
    decreases s, 16 - m,
{
    if m < 0 || m >= 16 || m >= s.len() {
        Seq::empty()
    } else {
        child_ref_enc(s[m]) + children_enc(s, m + 1)
    }
}

/// The deterministic encoding of a node.
pub open spec fn encoded(n: Node) -> Seq<u8>
    decreases n, 18int,
{
    match n {
        Node::Empty => seq![tag_empty()],
        Node::Leaf { path, value } => seq![tag_leaf()] + enc_path(path@) + enc_value(
            Some(value),
        ),
        Node::Branch { path, value, children } => (if path@.len() == 0 {
            seq![tag_branch()]
        } else {
            seq![tag_nibbled_branch()] + enc_path(path@)
        }) + enc_value(value) + presence(children@) + children_enc(children@, 0),
    }
}

/// The digest that identifies a committed node: the hash of its encoding.
pub open spec fn root_spec(n: Node) -> Seq<u8> {
    digest256(encoded(n))
}

/// Every digest present in `s0` is still present in `s1`: the store only
/// grows, so no stored reference ever stops resolving.
pub open spec fn store_extends(s1: Seq<crate::store::StoreEntry>, s0: Seq<crate::store::StoreEntry>) -> bool {
    forall|d: Seq<u8>| #[trigger] has_digest(s0, d) ==> has_digest(s1, d)
}

/// Every hash-referenced node in the subtree under `n` is present in the
/// store, so no stored reference dangles.
pub open spec fn child_refs_present(n: Node, db: Seq<crate::store::StoreEntry>) -> bool
    decreases n, 20int,
{
    match n {
        Node::Branch { children, .. } => refs_present_from(children@, 0, db),
        _ => true,
    }
}

/// The child slots from `m` on all resolve.
pub open spec fn refs_present_from(s: Seq<Node>, m: int, db: Seq<crate::store::StoreEntry>) -> bool
    decreases s, 16 - m,
{
    if m < 0 || m >= 16 || m >= s.len() {
        true
    } else {
        child_present(s[m], db) && refs_present_from(s, m + 1, db)
    }
}

/// A child slot resolves: an absent or inline child trivially, a
/// hash-referenced child through its digest in the store; and so on for
/// the child's own children.
pub open spec fn child_present(c: Node, db: Seq<crate::store::StoreEntry>) -> bool
    decreases c, 21int,
{
    match c {
        Node::Empty => true,
        _ => (encoded(c).len() >= 32 ==> has_digest(db, digest256(encoded(c))))
            && child_refs_present(c, db),
    }
}

/// Presence of subtree references survives store growth.
pub proof fn lemma_refs_present_monotone(
    n: Node,
    db0: Seq<crate::store::StoreEntry>,
    db1: Seq<crate::store::StoreEntry>,
)
    requires
        child_refs_present(n, db0),
        store_extends(db1, db0),
    ensures
        child_refs_present(n, db1),
    decreases n, 20int,
{
    match n {
        Node::Branch { children, .. } => {
            lemma_refs_from_monotone(children@, 0, db0, db1);
        },
        _ => {},
    }
}

/// Presence of the slots from `m` on survives store growth.
proof fn lemma_refs_from_monotone(
    s: Seq<Node>,
    m: int,
    db0: Seq<crate::store::StoreEntry>,
    db1: Seq<crate::store::StoreEntry>,
)
    requires
        refs_present_from(s, m, db0),
        store_extends(db1, db0),
    ensures
        refs_present_from(s, m, db1),
    decreases s, 16 - m,
{
    if 0 <= m < 16 && m < s.len() {
        lemma_child_present_monotone(s[m], db0, db1);
        lemma_refs_from_monotone(s, m + 1, db0, db1);
    }
}

/// Presence of one child's references survives store growth.
pub proof fn lemma_child_present_monotone(
    c: Node,
    db0: Seq<crate::store::StoreEntry>,
    db1: Seq<crate::store::StoreEntry>,
)
    requires
        child_present(c, db0),
        store_extends(db1, db0),
    ensures
        child_present(c, db1),
    decreases c, 21int,
{
    match c {
        Node::Empty => {},
        _ => {
            lemma_refs_present_monotone(c, db0, db1);
        },
    }
}

/// Slotwise presence folds into the suffix form.
proof fn lemma_refs_present_fold(s: Seq<Node>, m: int, db: Seq<crate::store::StoreEntry>)
    requires
        s.len() == 16,
        forall|x: int| m <= x < 16 ==> #[trigger] child_present(s[x], db),
    ensures
        refs_present_from(s, m, db),
    decreases 16 - m,
{
    if 0 <= m < 16 {
        assert(child_present(s[m], db));
        lemma_refs_present_fold(s, m + 1, db);
        assert(refs_present_from(s, m + 1, db));
    } else {
        assert(refs_present_from(s, m, db));
    }
}

/// Appends an 8-byte little-endian length word.
fn write_u64(out: &mut Vec<u8>, x: u64)
    ensures
        final(out)@ == old(out)@ + enc_u64(x as int),
{
    let ghost o0 = out@;
    out.push((x % 256) as u8);
    out.push(((x / 256) % 256) as u8);
    out.push(((x / 65536) % 256) as u8);
    out.push(((x / 16777216) % 256) as u8);
    out.push(((x / 4294967296) % 256) as u8);
    out.push(((x / 1099511627776) % 256) as u8);
    out.push(((x / 281474976710656) % 256) as u8);
    out.push(((x / 72057594037927936) % 256) as u8);
    proof {
        assert(out@ =~= o0 + enc_u64(x as int));
    }
}

/// Appends a whole buffer.
fn write_bytes(out: &mut Vec<u8>, b: &Vec<u8>)
    ensures
        final(out)@ == old(out)@ + b@,
{
    let ghost o0 = out@;
    let mut m: usize = 0;
    while m < b.len()
        invariant
            m <= b@.len(),
            out@ == o0 + b@.take(m as int),
        decreases b@.len() - m,
    {
        out.push(b[m]);
        proof {
            assert(o0 + b@.take(m + 1) =~= (o0 + b@.take(m as int)).push(b@[m as int]));
        }
        m = m + 1;
    }
    proof {
        assert(b@.take(b@.len() as int) =~= b@);
    }
}

/// Encodes the sixteen child references of a branch, storing every
/// hash-referenced child, in ascending slot order.
#[verifier::rlimit(100)]
#[verifier::loop_isolation(false)]
fn encode_children(children: &Vec<Node>, store: &mut NodeStore) -> (r: Vec<u8>)
    requires
        children@.len() == 16,
        forall|y: int| 0 <= y < 16 ==> wf(#[trigger] children@[y]),
        store_wf(old(store).entries@),
    ensures
        r@ == children_enc(children@, 0),
        store_wf(final(store).entries@),
        store_extends(final(store).entries@, old(store).entries@),
        refs_present_from(children@, 0, final(store).entries@),
    decreases children@,
{
    let mut out: Vec<u8> = Vec::new();
    let ghost s0 = store.entries@;
    let mut m: usize = 0;
    while m < 16
        invariant
            m <= 16,
            children_enc(children@, 0) == out@ + children_enc(children@, m as int),
            store_wf(store.entries@),
            store_extends(store.entries@, s0),
            forall|x: int| 0 <= x < m ==> #[trigger] child_present(children@[x], store.entries@),
        decreases 16 - m,
    {
        let ghost out0 = out@;
        let ghost smid = store.entries@;
        let occupied = match &children[m] {
            Node::Empty => false,
            _ => true,
        };
        if occupied {
            proof {
                assert(decreases_to!(children@ => children@[m as int]));
            }
            let e = encode_node(&children[m], store);
            let ghost smid2 = store.entries@;
            if e.len() < 32 {
                out.push(0u8);
                write_u64(&mut out, e.len() as u64);
                write_bytes(&mut out, &e);
            } else {
                out.push(1u8);
                let d = store.put(&e);
                write_bytes(&mut out, &d);
                proof {
                    assert forall|dd: Seq<u8>| #[trigger] has_digest(smid2, dd) implies has_digest(
                        store.entries@,
                        dd,
                    ) by {
                        if dd == d@ {
                        } else {
                        }
                    }
                }
            }
            proof {
                assert(out@ =~= out0 + child_ref_enc(children@[m as int]));
                assert forall|dd: Seq<u8>| #[trigger] has_digest(s0, dd) implies has_digest(
                    store.entries@,
                    dd,
                ) by {
                    assert(has_digest(smid, dd));
                    assert(has_digest(smid2, dd));
                }
                assert(e@ == encoded(children@[m as int]));
                lemma_refs_present_monotone(children@[m as int], smid2, store.entries@);
                assert(child_refs_present(children@[m as int], store.entries@));
                assert(encoded(children@[m as int]).len() >= 32 ==> has_digest(
                    store.entries@,
                    digest256(encoded(children@[m as int])),
                ));
                assert(child_present(children@[m as int], store.entries@));
            }
        } else {
            proof {
                assert(child_ref_enc(children@[m as int]) =~= Seq::<u8>::empty());
                assert(out@ =~= out0 + child_ref_enc(children@[m as int]));
                assert(child_present(children@[m as int], store.entries@));
            }
        }
        proof {
            assert(children_enc(children@, m as int) == child_ref_enc(children@[m as int])
                + children_enc(children@, m + 1));
            assert(children_enc(children@, 0) =~= out@ + children_enc(children@, m + 1));
            assert forall|x: int| 0 <= x < m implies #[trigger] child_present(
                children@[x],
                store.entries@,
            ) by {
                lemma_child_present_monotone(children@[x], smid, store.entries@);
            }
        }
        m = m + 1;
    }
    proof {
        assert(children_enc(children@, 16) =~= Seq::<u8>::empty());
        assert(out@ =~= children_enc(children@, 0));
        lemma_refs_present_fold(children@, 0, store.entries@);
    }
    out
}

/// Encodes `n`, storing every hash-referenced descendant in `store`, and
/// returns the encoding of `n` itself (which is not yet stored).
#[verifier::rlimit(100)]
#[verifier::spinoff_prover]
#[verifier::loop_isolation(false)]
pub fn encode_node(n: &Node, store: &mut NodeStore) -> (r: Vec<u8>)
    requires
        wf(*n),
        store_wf(old(store).entries@),
    ensures
        r@ == encoded(*n),
        store_wf(final(store).entries@),
        store_extends(final(store).entries@, old(store).entries@),
        child_refs_present(*n, final(store).entries@),
    decreases *n,
{
    let mut out: Vec<u8> = Vec::new();
    match n {
        Node::Empty => {
            out.push(0u8);
            proof {
                assert(out@ =~= encoded(*n));
                reveal(child_refs_present);
            }
            out
        },
        Node::Leaf { path, value } => {
            out.push(1u8);
            write_u64(&mut out, path.len() as u64);
            let packed = pack_nibbles(path);
            write_bytes(&mut out, &packed);
            out.push(1u8);
            write_u64(&mut out, value.len() as u64);
            write_bytes(&mut out, value);
            proof {
                assert(out@ =~= encoded(*n));
                reveal(child_refs_present);
            }
            out
        },
        Node::Branch { path, value, children } => {
            if path.len() == 0 {
                out.push(2u8);
            } else {
                out.push(3u8);
                write_u64(&mut out, path.len() as u64);
                let packed = pack_nibbles(path);
                write_bytes(&mut out, &packed);
            }
            let ghost head = out@;
            match value {
                Some(v) => {
                    out.push(1u8);
                    write_u64(&mut out, v.len() as u64);
                    write_bytes(&mut out, v);
                },
                None => {
                    out.push(0u8);
                },
            }
            proof {
                assert(out@ =~= head + enc_value(*value));
            }
            let ghost head2 = out@;
            let mut m: usize = 0;
            while m < 16
                invariant
                    m <= 16,
                    out@ == head2 + presence(children@).take(m as int),
                decreases 16 - m,
            {
                let flag: u8 = match &children[m] {
                    Node::Empty => 0,
                    _ => 1,
                };
                out.push(flag);
                proof {
                    assert(head2 + presence(children@).take(m + 1) =~= (head2 + presence(
                        children@,
                    ).take(m as int)).push(presence(children@)[m as int]));
                }
                m = m + 1;
            }
            proof {
                assert(presence(children@).take(16) =~= presence(children@));
                assert(decreases_to!(*n => *children));
                assert(decreases_to!(*children => children@));
            }
            let refs = encode_children(children, store);
            write_bytes(&mut out, &refs);
            proof {
                assert(out@ =~= encoded(*n));
                reveal(child_refs_present);
            }
            out
        },
    }
}

/// An 8-byte little-endian word read back as an integer.
pub open spec fn dec_u64_at(s: Seq<u8>, pos: int) -> int {
    s[pos] + 256 * s[pos + 1] + 65536 * s[pos + 2] + 16777216 * s[pos + 3] + 4294967296 * s[pos
        + 4] + 1099511627776 * s[pos + 5] + 281474976710656 * s[pos + 6] + 72057594037927936 * s[pos
        + 7]
}

/// Reading back the 8-byte little-endian word of `x` yields `x`.
pub proof fn lemma_u64_roundtrip(x: int)
    requires
        0 <= x < 0x10000000000000000,
    ensures
        (x % 256) + 256 * ((x / 256) % 256) + 65536 * ((x / 65536) % 256) + 16777216 * ((x
            / 16777216) % 256) + 4294967296 * ((x / 4294967296) % 256) + 1099511627776 * ((x
            / 1099511627776) % 256) + 281474976710656 * ((x / 281474976710656) % 256)
            + 72057594037927936 * ((x / 72057594037927936) % 256) == x,
{
    vstd::arithmetic::div_mod::lemma_div_denominator(x, 256, 256);
    vstd::arithmetic::div_mod::lemma_div_denominator(x, 65536, 256);
    vstd::arithmetic::div_mod::lemma_div_denominator(x, 16777216, 256);
    vstd::arithmetic::div_mod::lemma_div_denominator(x, 4294967296, 256);
    vstd::arithmetic::div_mod::lemma_div_denominator(x, 1099511627776, 256);
    vstd::arithmetic::div_mod::lemma_div_denominator(x, 281474976710656, 256);
    vstd::arithmetic::div_mod::lemma_div_denominator(x, 72057594037927936, 256);
    vstd::arithmetic::div_mod::lemma_fundamental_div_mod(x, 256);
    vstd::arithmetic::div_mod::lemma_fundamental_div_mod(x / 256, 256);
    vstd::arithmetic::div_mod::lemma_fundamental_div_mod(x / 65536, 256);
    vstd::arithmetic::div_mod::lemma_fundamental_div_mod(x / 16777216, 256);
    vstd::arithmetic::div_mod::lemma_fundamental_div_mod(x / 4294967296, 256);
    vstd::arithmetic::div_mod::lemma_fundamental_div_mod(x / 1099511627776, 256);
    vstd::arithmetic::div_mod::lemma_fundamental_div_mod(x / 281474976710656, 256);
    vstd::arithmetic::div_mod::lemma_fundamental_div_mod(x / 72057594037927936, 256);
    assert(x / 72057594037927936 / 256 == 0) by {
        vstd::arithmetic::div_mod::lemma_div_denominator(x, 72057594037927936, 256);
        vstd::arithmetic::div_mod::lemma_fundamental_div_mod(x, 0x10000000000000000);
        vstd::arithmetic::div_mod::lemma_fundamental_div_mod_converse_div(
            x,
            0x10000000000000000,
            0,
            x,
        );
    }
}

/// Reads the 8-byte little-endian length word at `pos`.
fn read_u64(b: &[u8], pos: usize) -> (v: u64)
    requires
        pos + 8 <= b@.len(),
    ensures
        v as int == dec_u64_at(b@, pos as int),
{
    (b[pos] as u64) + 256 * (b[pos + 1] as u64) + 65536 * (b[pos + 2] as u64) + 16777216 * (b[pos
        + 3] as u64) + 4294967296 * (b[pos + 4] as u64) + 1099511627776 * (b[pos + 5] as u64)
        + 281474976710656 * (b[pos + 6] as u64) + 72057594037927936 * (b[pos + 7] as u64)
}

/// Copies `b[a..c]`.
fn copy_range(b: &[u8], a: usize, c: usize) -> (r: Vec<u8>)
    requires
        a <= c <= b@.len(),
    ensures
        r@ == b@.subrange(a as int, c as int),
{
    let mut out: Vec<u8> = Vec::new();
    let mut m: usize = a;
    while m < c
        invariant
            a <= m <= c <= b@.len(),
            out@ == b@.subrange(a as int, m as int),
        decreases c - m,
    {
        out.push(b[m]);
        proof {
            assert(b@.subrange(a as int, m + 1) =~= b@.subrange(a as int, m as int).push(
                b@[m as int],
            ));
        }
        m = m + 1;
    }
    out
}

/// The discriminator a node encodes with.
pub open spec fn spec_tag(n: Node) -> u8 {
    match n {
        Node::Empty => 0,
        Node::Leaf { .. } => 1,
        Node::Branch { path, .. } => if path@.len() == 0 {
            2
        } else {
            3
        },
    }
}

/// Every encoding starts with its discriminator byte.
pub proof fn lemma_encoded_tag(n: Node)
    ensures
        encoded(n).len() >= 1,
        encoded(n)[0] == spec_tag(n),
{
    match n {
        Node::Empty => {},
        Node::Leaf { path, value } => {},
        Node::Branch { path, value, children } => {},
    }
}

/// The layout of a leaf encoding, field by field.
pub proof fn lemma_leaf_layout(n: Node, b: Seq<u8>)
    requires
        wf(n),
        n is Leaf,
        b == encoded(n),
    ensures
        b.len() == 18 + packed_nibbles(n->Leaf_path@).len() + n->Leaf_value@.len(),
        b[0] == 1,
        b.subrange(1, 9) == enc_u64(n->Leaf_path@.len() as int),
        b.subrange(9, 9 + packed_nibbles(n->Leaf_path@).len() as int) == packed_nibbles(
            n->Leaf_path@,
        ),
        b[9 + packed_nibbles(n->Leaf_path@).len() as int] == 1,
        b.subrange(
            10 + packed_nibbles(n->Leaf_path@).len() as int,
            18 + packed_nibbles(n->Leaf_path@).len() as int,
        ) == enc_u64(n->Leaf_value@.len() as int),
        b.subrange(18 + packed_nibbles(n->Leaf_path@).len() as int, b.len() as int) == n->Leaf_value@,
{
    let p = n->Leaf_path@;
    let v = n->Leaf_value@;
    let pb = packed_nibbles(p);
    assert(b =~= seq![1u8] + (enc_u64(p.len() as int) + pb) + (seq![1u8] + enc_u64(
        v.len() as int,
    ) + v));
    assert(b.subrange(1, 9) =~= enc_u64(p.len() as int));
    assert(b.subrange(9, 9 + pb.len() as int) =~= pb);
    assert(b.subrange(10 + pb.len() as int, 18 + pb.len() as int) =~= enc_u64(v.len() as int));
    assert(b.subrange(18 + pb.len() as int, b.len() as int) =~= v);
}

/// What a parser finds, field by field, in a leaf encoding.
pub proof fn lemma_leaf_parse(n: Node, b: Seq<u8>)
    requires
        wf(n),
        sizes_ok(n),
        n is Leaf,
        b == encoded(n),
    ensures
        b.len() == 18 + (n->Leaf_path@.len() / 2 + n->Leaf_path@.len() % 2)
            + n->Leaf_value@.len(),
        packed_nibbles(n->Leaf_path@).len() == n->Leaf_path@.len() / 2 + n->Leaf_path@.len() % 2,
        n->Leaf_path@.len() <= usize::MAX,
        n->Leaf_value@.len() <= usize::MAX,
        dec_u64_at(b, 1) == n->Leaf_path@.len(),
        b[9 + packed_nibbles(n->Leaf_path@).len() as int] == 1,
        dec_u64_at(b, 10 + packed_nibbles(n->Leaf_path@).len() as int) == n->Leaf_value@.len(),
        b.subrange(9, 9 + packed_nibbles(n->Leaf_path@).len() as int) == packed_nibbles(
            n->Leaf_path@,
        ),
        b.subrange(18 + packed_nibbles(n->Leaf_path@).len() as int, b.len() as int)
            == n->Leaf_value@,
{
    lemma_leaf_layout(n, b);
    let p = n->Leaf_path@;
    let v = n->Leaf_value@;
    let pb = packed_nibbles(p);
    assert(pb.len() == p.len() / 2 + p.len() % 2);
    assert(dec_u64_at(b, 1) == dec_u64_at(enc_u64(p.len() as int), 0)) by {
        assert forall|m: int| 0 <= m < 8 implies b[1 + m] == enc_u64(p.len() as int)[m] by {
            assert(b.subrange(1, 9)[m] == b[1 + m]);
        }
    }
    lemma_u64_roundtrip(p.len() as int);
    assert(dec_u64_at(b, 10 + pb.len() as int) == dec_u64_at(enc_u64(v.len() as int), 0)) by {
        assert forall|m: int| 0 <= m < 8 implies b[10 + pb.len() + m] == enc_u64(
            v.len() as int,
        )[m] by {
            assert(b.subrange(10 + pb.len() as int, 18 + pb.len() as int)[m] == b[10 + pb.len()
                + m]);
        }
    }
    lemma_u64_roundtrip(v.len() as int);
}

/// The machine bound a node must respect to be parseable: its own path and
/// value fit in addressable memory.
pub open spec fn sizes_ok(n: Node) -> bool {
    match n {
        Node::Empty => true,
        Node::Leaf { path, value } => path@.len() <= usize::MAX && value@.len() <= usize::MAX,
        Node::Branch { path, value, children } => path@.len() <= usize::MAX && (match value {
            Some(v) => v@.len() <= usize::MAX,
            None => true,
        }),
    }
}

/// A reference to a child inside its parent's encoding: the child's whole
/// encoding inline, or the digest it is stored under.
pub enum ChildRef {
    Inline(Vec<u8>),
    Hash(Vec<u8>),
}

/// One decoded node: its discriminator, nibble path as the codec carries it
/// (count plus packed bytes), value, and the sixteen child references.
pub struct DecodedNode {
    pub tag: u8,
    pub path_count: usize,
    pub path_packed: Vec<u8>,
    pub value: Option<Vec<u8>>,
    pub children: Vec<Option<ChildRef>>,
}

/// Whether `cr` is the reference that `c` encodes to.
pub open spec fn child_ref_match(cr: Option<ChildRef>, c: Node) -> bool {
    match cr {
        None => c is Empty,
        Some(ChildRef::Inline(e)) => !(c is Empty) && encoded(c).len() < 32 && e@ == encoded(c),
        Some(ChildRef::Hash(d)) => !(c is Empty) && encoded(c).len() >= 32 && d@ == digest256(
            encoded(c),
        ),
    }
}

/// Whether `d` describes exactly the node `n`.
pub open spec fn plan_matches(d: DecodedNode, n: Node) -> bool {
    match n {
        Node::Empty => d.tag == 0,
        Node::Leaf { path, value } => {
            &&& d.tag == 1
            &&& d.path_count == path@.len()
            &&& d.path_packed@ == packed_nibbles(path@)
            &&& (match d.value {
                Some(v) => v@ == value@,
                None => false,
            })
        },
        Node::Branch { path, value, children } => {
            &&& d.tag == spec_tag(n)
            &&& d.path_count == path@.len()
            &&& d.path_packed@ == packed_nibbles(path@)
            &&& (match (d.value, value) {
                (Some(a), Some(bv)) => a@ == bv@,
                (None, None) => true,
                _ => false,
            })
            &&& d.children@.len() == 16
            &&& (forall|x: int|
                0 <= x < 16 ==> child_ref_match(#[trigger] d.children@[x], children@[x]))
        },
    }
}

/// An inline child reference is strictly shorter than `lim`.
pub open spec fn inline_smaller(cr: Option<ChildRef>, lim: int) -> bool {
    match cr {
        Some(ChildRef::Inline(e)) => e@.len() < lim,
        _ => true,
    }
}

/// Whether the decoder's result describes `n`.
pub open spec fn plan_result_matches(r: Option<DecodedNode>, n: Node) -> bool {
    match r {
        Some(d) => plan_matches(d, n),
        None => false,
    }
}

/// Decodes a leaf encoding (first byte 1) into its parts.
#[verifier::rlimit(100)]
#[verifier::spinoff_prover]
#[verifier::loop_isolation(false)]
fn decode_leaf(bytes: &[u8]) -> (r: Option<DecodedNode>)
    requires
        bytes@.len() >= 1,
        bytes@[0] == 1,
    ensures
        forall|n: Node| #[trigger] parse_hyp(n, bytes@) ==> plan_result_matches(r, n),
        match r {
            Some(d) => d.children@.len() <= 16 && forall|x: int|
                0 <= x < d.children@.len() ==> inline_smaller(
                    #[trigger] d.children@[x],
                    bytes@.len() as int,
                ),
            None => true,
        },
{
    let blen = bytes.len();
    {
        proof {
            assert forall|n: Node| #[trigger] parse_hyp(n, bytes@) implies n is Leaf by {
                lemma_encoded_tag(n);
            }
        }
        if blen < 9 {
            proof {
                assert forall|n: Node| #[trigger] parse_hyp(n, bytes@) implies false by {
                    lemma_leaf_parse(n, bytes@);
                }
            }
            return None;
        }
        let count64 = read_u64(bytes, 1);
        proof {
            assert forall|n: Node| #[trigger] parse_hyp(n, bytes@) implies count64
                as int == n->Leaf_path@.len() by {
                lemma_leaf_parse(n, bytes@);
            }
        }
        if count64 > (usize::MAX as u64) {
            proof {
                assert forall|n: Node| #[trigger] parse_hyp(n, bytes@) implies false by {
                    lemma_leaf_parse(n, bytes@);
                }
            }
            return None;
        }
        let count = count64 as usize;
        let pb_len = count / 2 + count % 2;
        if blen - 9 < pb_len {
            proof {
                assert forall|n: Node| #[trigger] parse_hyp(n, bytes@) implies false by {
                    lemma_leaf_parse(n, bytes@);
                }
            }
            return None;
        }
        let packed = copy_range(bytes, 9, 9 + pb_len);
        let pos = 9 + pb_len;
        if blen - pos < 9 {
            proof {
                assert forall|n: Node| #[trigger] parse_hyp(n, bytes@) implies false by {
                    lemma_leaf_parse(n, bytes@);
                }
            }
            return None;
        }
        if bytes[pos] != 1 {
            proof {
                assert forall|n: Node| #[trigger] parse_hyp(n, bytes@) implies false by {
                    lemma_leaf_parse(n, bytes@);
                }
            }
            return None;
        }
        let vlen64 = read_u64(bytes, pos + 1);
        proof {
            assert forall|n: Node| #[trigger] parse_hyp(n, bytes@) implies vlen64
                as int == n->Leaf_value@.len() by {
                lemma_leaf_parse(n, bytes@);
            }
        }
        if vlen64 > (usize::MAX as u64) {
            proof {
                assert forall|n: Node| #[trigger] parse_hyp(n, bytes@) implies false by {
                    lemma_leaf_parse(n, bytes@);
                }
            }
            return None;
        }
        let vlen = vlen64 as usize;
        let pos2 = pos + 9;
        if blen - pos2 < vlen {
            proof {
                assert forall|n: Node| #[trigger] parse_hyp(n, bytes@) implies false by {
                    lemma_leaf_parse(n, bytes@);
                }
            }
            return None;
        }
        let value = copy_range(bytes, pos2, pos2 + vlen);
        let d = DecodedNode {
            tag: 1,
            path_count: count,
            path_packed: packed,
            value: Some(value),
            children: Vec::new(),
        };
        proof {
            assert forall|n: Node| #[trigger] parse_hyp(n, bytes@) implies
                plan_result_matches(Some(d), n) by {
                lemma_leaf_parse(n, bytes@);
                let p = n->Leaf_path@;
                let pb = packed_nibbles(p);
                assert(packed@ =~= pb);
                assert(value@ =~= n->Leaf_value@);
            }
        }
        return Some(d);
    }
}

/// Parses the sixteen child references of a branch encoding, starting
/// right after the presence table.
#[verifier::rlimit(100)]
#[verifier::spinoff_prover]
#[verifier::loop_isolation(false)]
fn decode_branch_refs(bytes: &[u8], table: usize, start: usize) -> (r: Option<
    Vec<Option<ChildRef>>,
>)
    requires
        table + 16 <= bytes@.len(),
        start <= bytes@.len(),
        forall|n: Node|
            #[trigger] parse_hyp(n, bytes@) ==> n is Branch && bytes@.skip(start as int)
                == children_enc(n->Branch_children@, 0) && (forall|x: int|
                0 <= x < 16 ==> bytes@[table + x] == presence(n->Branch_children@)[x]),
    ensures
        match r {
            Some(children) => children@.len() == 16 && (forall|x: int|
                0 <= x < 16 ==> inline_smaller(#[trigger] children@[x], bytes@.len() as int))
                && (forall|n: Node|
                #[trigger] parse_hyp(n, bytes@) ==> forall|x: int|
                    0 <= x < 16 ==> child_ref_match(
                        #[trigger] children@[x],
                        n->Branch_children@[x],
                    )),
            None => forall|n: Node| !(#[trigger] parse_hyp(n, bytes@)),
        },
{
    let blen = bytes.len();
    let mut pos = start;
    let mut children: Vec<Option<ChildRef>> = Vec::new();
    let mut m: usize = 0;
    while m < 16
        invariant
            table + 16 <= blen,
            pos <= blen,
            m <= 16,
            children@.len() == m,
            forall|x: int|
                0 <= x < m ==> inline_smaller(#[trigger] children@[x], bytes@.len() as int),
            forall|n: Node|
                #[trigger] parse_hyp(n, bytes@) ==> bytes@.skip(pos as int) == children_enc(
                    n->Branch_children@,
                    m as int,
                ) && (forall|x: int|
                    0 <= x < m ==> child_ref_match(
                        #[trigger] children@[x],
                        n->Branch_children@[x],
                    )),
        decreases 16 - m,
    {
        let ghost pos0 = pos as int;
        let present = bytes[table + m];
        if present == 0 {
            proof {
                assert forall|n: Node| #[trigger] parse_hyp(n, bytes@) implies
                    n->Branch_children@[m as int] is Empty && bytes@.skip(pos as int)
                    == children_enc(n->Branch_children@, m + 1) by {
                    assert(bytes@[table + m] == presence(n->Branch_children@)[m as int]);
                    lemma_child_ref_shape(n->Branch_children@, m as int, bytes@, pos as int);
                }
            }
            children.push(None);
        } else if present == 1 {
            proof {
                assert forall|n: Node| #[trigger] parse_hyp(n, bytes@) implies !(
                n->Branch_children@[m as int] is Empty) by {
                    assert(bytes@[table + m] == presence(n->Branch_children@)[m as int]);
                }
            }
            if blen - pos < 1 {
                proof {
                    assert forall|n: Node| #[trigger] parse_hyp(n, bytes@) implies false by {
                        lemma_child_ref_shape(n->Branch_children@, m as int, bytes@, pos as int);
                    }
                }
                return None;
            }
            let kind = bytes[pos];
            if kind == 0 {
                if blen - pos < 9 {
                    proof {
                        assert forall|n: Node| #[trigger] parse_hyp(n, bytes@) implies false by {
                            lemma_child_ref_shape(
                                n->Branch_children@,
                                m as int,
                                bytes@,
                                pos as int,
                            );
                        }
                    }
                    return None;
                }
                let elen64 = read_u64(bytes, pos + 1);
                if elen64 > (usize::MAX as u64) {
                    proof {
                        assert forall|n: Node| #[trigger] parse_hyp(n, bytes@) implies false by {
                            lemma_child_ref_shape(
                                n->Branch_children@,
                                m as int,
                                bytes@,
                                pos as int,
                            );
                        }
                    }
                    return None;
                }
                let elen = elen64 as usize;
                if blen - (pos + 9) < elen {
                    proof {
                        assert forall|n: Node| #[trigger] parse_hyp(n, bytes@) implies false by {
                            lemma_child_ref_shape(
                                n->Branch_children@,
                                m as int,
                                bytes@,
                                pos as int,
                            );
                        }
                    }
                    return None;
                }
                if elen >= blen {
                    proof {
                        assert forall|n: Node| #[trigger] parse_hyp(n, bytes@) implies false by {
                            lemma_child_ref_shape(
                                n->Branch_children@,
                                m as int,
                                bytes@,
                                pos as int,
                            );
                        }
                    }
                    return None;
                }
                let blob = copy_range(bytes, pos + 9, pos + 9 + elen);
                proof {
                    assert forall|n: Node| #[trigger] parse_hyp(n, bytes@) implies child_ref_match(
                        Some(ChildRef::Inline(blob)),
                        n->Branch_children@[m as int],
                    ) && bytes@.skip(pos0 + 9 + elen) == children_enc(
                        n->Branch_children@,
                        m + 1,
                    ) by {
                        lemma_child_ref_shape(n->Branch_children@, m as int, bytes@, pos0);
                    }
                }
                children.push(Some(ChildRef::Inline(blob)));
                pos = pos + 9 + elen;
            } else if kind == 1 {
                if blen - pos < 33 {
                    proof {
                        assert forall|n: Node| #[trigger] parse_hyp(n, bytes@) implies false by {
                            lemma_child_ref_shape(
                                n->Branch_children@,
                                m as int,
                                bytes@,
                                pos as int,
                            );
                        }
                    }
                    return None;
                }
                let digest = copy_range(bytes, pos + 1, pos + 33);
                proof {
                    assert forall|n: Node| #[trigger] parse_hyp(n, bytes@) implies child_ref_match(
                        Some(ChildRef::Hash(digest)),
                        n->Branch_children@[m as int],
                    ) && bytes@.skip(pos0 + 33) == children_enc(n->Branch_children@, m + 1) by {
                        lemma_child_ref_shape(n->Branch_children@, m as int, bytes@, pos0);
                    }
                }
                children.push(Some(ChildRef::Hash(digest)));
                pos = pos + 33;
            } else {
                proof {
                    assert forall|n: Node| #[trigger] parse_hyp(n, bytes@) implies false by {
                        lemma_child_ref_shape(n->Branch_children@, m as int, bytes@, pos as int);
                    }
                }
                return None;
            }
        } else {
            proof {
                assert forall|n: Node| #[trigger] parse_hyp(n, bytes@) implies false by {
                    assert(bytes@[table + m] == presence(n->Branch_children@)[m as int]);
                }
            }
            return None;
        }
        m = m + 1;
    }
    Some(children)
}

/// Decodes a branch encoding (first byte 2 or 3) into its parts, under
/// the codec round-trip law: the encoding of any well-formed, parseable
/// branch decodes to exactly that branch's description.
#[verifier::rlimit(100)]
#[verifier::spinoff_prover]
#[verifier::loop_isolation(false)]
fn decode_branch(bytes: &[u8]) -> (r: Option<DecodedNode>)
    requires
        bytes@.len() >= 1,
        bytes@[0] == 2 || bytes@[0] == 3,
    ensures
        forall|n: Node| #[trigger] parse_hyp(n, bytes@) ==> plan_result_matches(r, n),
        match r {
            Some(d) => d.children@.len() <= 16 && forall|x: int|
                0 <= x < d.children@.len() ==> inline_smaller(
                    #[trigger] d.children@[x],
                    bytes@.len() as int,
                ),
            None => true,
        },
{
    let blen = bytes.len();
    let tag = bytes[0];
    proof {
        assert forall|n: Node| #[trigger] parse_hyp(n, bytes@) implies n is Branch && spec_tag(n)
            == tag by {
            lemma_encoded_tag(n);
        }
    }
    let mut pos: usize = 1;
    let mut count: usize = 0;
    let mut packed: Vec<u8> = Vec::new();
    if tag == 3 {
        if blen < 9 {
            proof {
                assert forall|n: Node| #[trigger] parse_hyp(n, bytes@) implies false by {
                    lemma_branch_layout(n, bytes@);
                }
            }
            return None;
        }
        let count64 = read_u64(bytes, 1);
        if count64 > (usize::MAX as u64) {
            proof {
                assert forall|n: Node| #[trigger] parse_hyp(n, bytes@) implies false by {
                    lemma_branch_layout(n, bytes@);
                }
            }
            return None;
        }
        count = count64 as usize;
        let pb_len = count / 2 + count % 2;
        if blen - 9 < pb_len {
            proof {
                assert forall|n: Node| #[trigger] parse_hyp(n, bytes@) implies false by {
                    lemma_branch_layout(n, bytes@);
                }
            }
            return None;
        }
        packed = copy_range(bytes, 9, 9 + pb_len);
        pos = 9 + pb_len;
    }
    proof {
        assert forall|n: Node| #[trigger] parse_hyp(n, bytes@) implies pos == bhead_len(n) && count
            == n->Branch_path@.len() && packed@ == packed_nibbles(n->Branch_path@) by {
            lemma_branch_layout(n, bytes@);
            if tag == 2 {
                assert(packed_nibbles(n->Branch_path@) =~= Seq::<u8>::empty());
            }
        }
    }
    if blen - pos < 1 {
        proof {
            assert forall|n: Node| #[trigger] parse_hyp(n, bytes@) implies false by {
                lemma_branch_layout(n, bytes@);
            }
        }
        return None;
    }
    let vflag = bytes[pos];
    let vstart = pos + 1;
    let mut value: Option<Vec<u8>> = None;
    if vflag == 1 {
        if blen - vstart < 8 {
            proof {
                assert forall|n: Node| #[trigger] parse_hyp(n, bytes@) implies false by {
                    lemma_branch_layout(n, bytes@);
                }
            }
            return None;
        }
        let vlen64 = read_u64(bytes, vstart);
        if vlen64 > (usize::MAX as u64) {
            proof {
                assert forall|n: Node| #[trigger] parse_hyp(n, bytes@) implies false by {
                    lemma_branch_layout(n, bytes@);
                }
            }
            return None;
        }
        let vlen = vlen64 as usize;
        if blen - (vstart + 8) < vlen {
            proof {
                assert forall|n: Node| #[trigger] parse_hyp(n, bytes@) implies false by {
                    lemma_branch_layout(n, bytes@);
                }
            }
            return None;
        }
        value = Some(copy_range(bytes, vstart + 8, vstart + 8 + vlen));
        pos = vstart + 8 + vlen;
    } else if vflag == 0 {
        pos = vstart;
    } else {
        proof {
            assert forall|n: Node| #[trigger] parse_hyp(n, bytes@) implies false by {
                lemma_branch_layout(n, bytes@);
            }
        }
        return None;
    }
    proof {
        assert forall|n: Node| #[trigger] parse_hyp(n, bytes@) implies pos == bhead_len(n) + bval_len(n)
            && (match (value, n->Branch_value) {
            (Some(a), Some(bv)) => a@ == bv@,
            (None, None) => true,
            _ => false,
        }) by {
            lemma_branch_layout(n, bytes@);
        }
    }
    if blen - pos < 16 {
        proof {
            assert forall|n: Node| #[trigger] parse_hyp(n, bytes@) implies false by {
                lemma_branch_layout(n, bytes@);
            }
        }
        return None;
    }
    let table = pos;
    pos = pos + 16;
    proof {
        assert forall|n: Node| #[trigger] parse_hyp(n, bytes@) implies pos == cpos(n) && bytes@.skip(
            pos as int,
        ) == children_enc(n->Branch_children@, 0) && (forall|x: int|
            0 <= x < 16 ==> bytes@[table + x] == presence(n->Branch_children@)[x]) by {
            lemma_branch_layout(n, bytes@);
            assert forall|x: int| 0 <= x < 16 implies bytes@[table + x] == presence(
                n->Branch_children@,
            )[x] by {
                assert(bytes@.subrange(
                    bhead_len(n) + bval_len(n),
                    bhead_len(n) + bval_len(n) + 16,
                )[x] == bytes@[table + x]);
            }
        }
    }
    let children = match decode_branch_refs(bytes, table, pos) {
        Some(c) => c,
        None => {
            return None;
        },
    };
    let d = DecodedNode { tag, path_count: count, path_packed: packed, value, children };
    proof {
        assert forall|n: Node| #[trigger] parse_hyp(n, bytes@) implies plan_result_matches(
            Some(d),
            n,
        ) by {
            assert(parse_hyp(n, bytes@));
        }
    }
    Some(d)
}

/// Decodes one node's encoding into its parts, without resolving children.
/// Malformed bytes yield `None`. The contract is the codec round-trip law:
/// the encoding of any well-formed, parseable node decodes to exactly that
/// node's description, child references included.
pub fn decode_plan(bytes: &[u8]) -> (r: Option<DecodedNode>)
    ensures
        forall|n: Node| #[trigger] parse_hyp(n, bytes@) ==> plan_result_matches(r, n),
        bytes@.len() == 0 || bytes@[0] > 3 ==> r is None,
        match r {
            Some(d) => d.children@.len() <= 16 && forall|x: int|
                0 <= x < d.children@.len() ==> inline_smaller(
                    #[trigger] d.children@[x],
                    bytes@.len() as int,
                ),
            None => true,
        },
{
    let blen = bytes.len();
    if blen == 0 {
        proof {
            assert forall|n: Node| #[trigger] parse_hyp(n, bytes@) implies false by {
                lemma_encoded_tag(n);
            }
        }
        return None;
    }
    let tag = bytes[0];
    if tag == 0 {
        let d = DecodedNode {
            tag: 0,
            path_count: 0,
            path_packed: Vec::new(),
            value: None,
            children: Vec::new(),
        };
        proof {
            assert forall|n: Node| #[trigger] parse_hyp(n, bytes@) implies plan_result_matches(
                Some(d),
                n,
            ) by {
                lemma_encoded_tag(n);
            }
        }
        Some(d)
    } else if tag == 1 {
        proof {
            assert forall|n: Node| #[trigger] parse_hyp(n, bytes@) implies !(n is Branch) by {
                lemma_encoded_tag(n);
            }
        }
        decode_leaf(bytes)
    } else if tag == 2 || tag == 3 {
        decode_branch(bytes)
    } else {
        proof {
            assert forall|n: Node| #[trigger] parse_hyp(n, bytes@) implies false by {
                lemma_encoded_tag(n);
            }
        }
        None
    }
}

/// Slotwise-equal child arrays encode their references identically.
proof fn lemma_children_enc_congruent(s1: Seq<Node>, s2: Seq<Node>, m: int)
    requires
        s1.len() == 16,
        s2.len() == 16,
        forall|x: int|
            0 <= x < 16 ==> (((#[trigger] s1[x]) is Empty) == ((#[trigger] s2[x]) is Empty)),
        forall|x: int|
            0 <= x < 16 && !((#[trigger] s1[x]) is Empty) ==> encoded(s1[x]) == encoded(s2[x]),
    ensures
        children_enc(s1, m) == children_enc(s2, m),
    decreases 16 - m,
{
    if 0 <= m < 16 {
        assert(child_ref_enc(s1[m]) == child_ref_enc(s2[m]));
        lemma_children_enc_congruent(s1, s2, m + 1);
    }
}

/// Canonical trees are determined by their contents: two well-formed trees
/// that store the same value at every nibble path have identical encodings,
/// and therefore identical digests. In particular, inserting one set of
/// bindings in any order yields the same committed root.
pub proof fn lemma_encoded_extensional(n1: Node, n2: Node)
    requires
        wf(n1),
        wf(n2),
        forall|j: Seq<u8>| #[trigger] lookup(n1, j) == lookup(n2, j),
    ensures
        encoded(n1) == encoded(n2),
    decreases n1,
{
    match n1 {
        Node::Empty => {
            if !(n2 is Empty) {
                crate::node::lemma_nonempty_has_key(n2);
                let j = choose|j: Seq<u8>| (#[trigger] lookup(n2, j)) is Some;
                assert(lookup(n1, j) is Some);
                assert(false);
            }
        },
        Node::Leaf { path: p1, value: v1 } => {
            assert(lookup(n1, p1@) is Some);
            assert(lookup(n2, p1@) is Some);
            match n2 {
                Node::Empty => {
                    assert(false);
                },
                Node::Leaf { path: p2, value: v2 } => {
                    assert(p1@ == p2@);
                    assert(lookup(n2, p1@) == Some(v2@));
                    assert(lookup(n1, p1@) == Some(v1@));
                    assert(v1@ == v2@);
                    assert(encoded(n1) =~= encoded(n2));
                },
                Node::Branch { .. } => {
                    crate::node::lemma_branch_two_keys(n2);
                    let (j1, j2) = choose|j1: Seq<u8>, j2: Seq<u8>|
                        j1 != j2 && (#[trigger] lookup(n2, j1)) is Some && (#[trigger] lookup(
                            n2,
                            j2,
                        )) is Some;
                    assert(lookup(n1, j1) is Some && lookup(n1, j2) is Some);
                    assert(j1 == p1@ && j2 == p1@);
                    assert(false);
                },
            }
        },
        Node::Branch { path: p1, value: val1, children: ch1 } => {
            match n2 {
                Node::Empty => {
                    crate::node::lemma_nonempty_has_key(n1);
                    let j = choose|j: Seq<u8>| (#[trigger] lookup(n1, j)) is Some;
                    assert(lookup(n2, j) is Some);
                    assert(false);
                },
                Node::Leaf { path: p2, value: v2 } => {
                    crate::node::lemma_branch_two_keys(n1);
                    let (j1, j2) = choose|j1: Seq<u8>, j2: Seq<u8>|
                        j1 != j2 && (#[trigger] lookup(n1, j1)) is Some && (#[trigger] lookup(
                            n1,
                            j2,
                        )) is Some;
                    assert(lookup(n2, j1) is Some && lookup(n2, j2) is Some);
                    assert(j1 == p2@ && j2 == p2@);
                    assert(false);
                },
                Node::Branch { path: p2, value: val2, children: ch2 } => {
                    lemma_branch_paths_agree(n1, n2);
                    assert(p1@ == p2@);
                    // the optional values agree: both are the binding at the path
                    assert(p1@.is_prefix_of(p1@)) by {
                        assert(p1@ =~= p1@.subrange(0, p1@.len() as int));
                    }
                    assert(p1@.skip(p1@.len() as int).len() == 0);
                    assert(lookup(n1, p1@) == opt_bytes(val1));
                    assert(lookup(n2, p1@) == opt_bytes(val2));
                    // each child pair stores the same bindings
                    assert forall|x: int| 0 <= x < 16 implies (((#[trigger] ch1@[x]) is Empty)
                        == ((#[trigger] ch2@[x]) is Empty)) && (!(ch1@[x] is Empty) ==> encoded(
                        ch1@[x],
                    ) == encoded(ch2@[x])) by {
                        assert forall|j: Seq<u8>| #[trigger] lookup(ch1@[x], j) == lookup(
                            ch2@[x],
                            j,
                        ) by {
                            crate::node::lemma_branch_child_lookup(n1, x as u8, j);
                            crate::node::lemma_branch_child_lookup(n2, x as u8, j);
                        }
                        if ch1@[x] is Empty {
                            if !(ch2@[x] is Empty) {
                                crate::node::lemma_nonempty_has_key(ch2@[x]);
                                let j = choose|j: Seq<u8>| (#[trigger] lookup(ch2@[x], j)) is Some;
                                assert(lookup(ch1@[x], j) is Some);
                                assert(false);
                            }
                        } else {
                            if ch2@[x] is Empty {
                                crate::node::lemma_nonempty_has_key(ch1@[x]);
                                let j = choose|j: Seq<u8>| (#[trigger] lookup(ch1@[x], j)) is Some;
                                assert(lookup(ch2@[x], j) is Some);
                                assert(false);
                            }
                            assert(decreases_to!(n1 => ch1@[x]));
                            lemma_encoded_extensional(ch1@[x], ch2@[x]);
                        }
                    }
                    assert(presence(ch1@) =~= presence(ch2@));
                    lemma_children_enc_congruent(ch1@, ch2@, 0);
                    assert(enc_value(val1) == enc_value(val2));
                    assert(encoded(n1) =~= encoded(n2));
                },
            }
        },
    }
}

/// Two well-formed branches storing the same bindings consume the same
/// nibble prefix before branching.
proof fn lemma_branch_paths_agree(n1: Node, n2: Node)
    requires
        wf(n1),
        wf(n2),
        n1 is Branch,
        n2 is Branch,
        forall|j: Seq<u8>| #[trigger] lookup(n1, j) == lookup(n2, j),
    ensures
        n1->Branch_path@ == n2->Branch_path@,
{
    lemma_branch_path_len_bound(n1, n2);
    lemma_branch_path_len_bound(n2, n1);
    let p1 = n1->Branch_path@;
    let p2 = n2->Branch_path@;
    assert(p1.len() == p2.len());
    crate::node::lemma_nonempty_has_key(n1);
    let j = choose|j: Seq<u8>| (#[trigger] lookup(n1, j)) is Some;
    crate::node::lemma_branch_key_prefix(n1, j);
    crate::node::lemma_branch_key_prefix(n2, j);
    assert(p1 =~= p2) by {
        assert(p1 == j.subrange(0, p1.len() as int));
        assert(p2 == j.subrange(0, p2.len() as int));
    }
}

/// No branch with the same bindings has a longer prefix than another.
proof fn lemma_branch_path_len_bound(n1: Node, n2: Node)
    requires
        wf(n1),
        wf(n2),
        n1 is Branch,
        n2 is Branch,
        forall|j: Seq<u8>| #[trigger] lookup(n1, j) == lookup(n2, j),
    ensures
        n1->Branch_path@.len() >= n2->Branch_path@.len(),
{
    let p1 = n1->Branch_path@;
    let p2 = n2->Branch_path@;
    if p1.len() < p2.len() {
        match n1 {
            Node::Branch { path, value, children } => {
                if value is Some {
                    // n1 stores a key of length |p1|, but every key of n2
                    // carries the longer prefix p2
                    assert(p1.is_prefix_of(p1)) by {
                        assert(p1 =~= p1.subrange(0, p1.len() as int));
                    }
                    assert(p1.skip(p1.len() as int).len() == 0);
                    assert(lookup(n1, p1) is Some);
                    crate::node::lemma_branch_key_prefix(n2, p1);
                    assert(p2.len() <= p1.len());
                    assert(false);
                } else {
                    // n1 branches on distinct nibbles right after p1, but
                    // every key of n2 agrees on that position within p2
                    crate::node::lemma_count_two_exists(children@);
                    let (x, y) = choose|x: int, y: int|
                        0 <= x < y < 16 && !((#[trigger] children@[x]) is Empty) && !((
                        #[trigger] children@[y]) is Empty);
                    assert(wf(children@[x]) && wf(children@[y]));
                    crate::node::lemma_nonempty_has_key(children@[x]);
                    crate::node::lemma_nonempty_has_key(children@[y]);
                    let jx = choose|jc: Seq<u8>| (#[trigger] lookup(children@[x], jc)) is Some;
                    let jy = choose|jc: Seq<u8>| (#[trigger] lookup(children@[y], jc)) is Some;
                    crate::node::lemma_branch_child_lookup(n1, x as u8, jx);
                    crate::node::lemma_branch_child_lookup(n1, y as u8, jy);
                    let k1 = p1 + seq![x as u8] + jx;
                    let k2 = p1 + seq![y as u8] + jy;
                    assert(lookup(n1, k1) is Some && lookup(n1, k2) is Some);
                    crate::node::lemma_branch_key_prefix(n2, k1);
                    crate::node::lemma_branch_key_prefix(n2, k2);
                    assert(k1[p1.len() as int] == x as u8);
                    assert(k2[p1.len() as int] == y as u8);
                    assert(k1[p1.len() as int] == p2[p1.len() as int]) by {
                        assert(p2 == k1.subrange(0, p2.len() as int));
                    }
                    assert(k2[p1.len() as int] == p2[p1.len() as int]) by {
                        assert(p2 == k2.subrange(0, p2.len() as int));
                    }
                    assert(false);
                }
            },
            _ => {},
        }
    }
}

/// The hypothesis of the codec round-trip law: a well-formed, parseable
/// node whose encoding is the buffer at hand.
pub open spec fn parse_hyp(n: Node, b: Seq<u8>) -> bool {
    wf(n) && sizes_ok(n) && b == encoded(n)
}

/// The length of a branch encoding's path part.
pub open spec fn bhead_len(n: Node) -> int {
    if n->Branch_path@.len() == 0 {
        1
    } else {
        9 + packed_nibbles(n->Branch_path@).len() as int
    }
}

/// The length of a branch encoding's value part.
pub open spec fn bval_len(n: Node) -> int {
    match n->Branch_value {
        Some(v) => 9 + v@.len() as int,
        None => 1,
    }
}

/// Where a branch encoding's child references start.
pub open spec fn cpos(n: Node) -> int {
    bhead_len(n) + bval_len(n) + 16
}

/// The layout of a branch encoding, field by field.
#[verifier::rlimit(100)]
#[verifier::spinoff_prover]
proof fn lemma_branch_layout(n: Node, b: Seq<u8>)
    requires
        wf(n),
        sizes_ok(n),
        n is Branch,
        b == encoded(n),
    ensures
        b.len() == cpos(n) + children_enc(n->Branch_children@, 0).len(),
        b[0] == spec_tag(n),
        n->Branch_path@.len() > 0 ==> dec_u64_at(b, 1) == n->Branch_path@.len()
            && n->Branch_path@.len() <= usize::MAX && packed_nibbles(n->Branch_path@).len()
            == n->Branch_path@.len() / 2 + n->Branch_path@.len() % 2 && b.subrange(
            9,
            9 + packed_nibbles(n->Branch_path@).len() as int,
        ) == packed_nibbles(n->Branch_path@),
        b[bhead_len(n)] == (if n->Branch_value is Some {
            1u8
        } else {
            0u8
        }),
        n->Branch_value matches Some(v) ==> dec_u64_at(b, bhead_len(n) + 1) == v@.len()
            && v@.len() <= usize::MAX && b.subrange(
            bhead_len(n) + 9,
            bhead_len(n) + 9 + v@.len() as int,
        ) == v@,
        b.subrange(bhead_len(n) + bval_len(n), bhead_len(n) + bval_len(n) + 16) == presence(
            n->Branch_children@,
        ),
        b.skip(cpos(n)) == children_enc(n->Branch_children@, 0),
{
    let p = n->Branch_path@;
    let pb = packed_nibbles(p);
    let ch = n->Branch_children@;
    let head: Seq<u8> = if p.len() == 0 {
        seq![2u8]
    } else {
        seq![3u8] + enc_u64(p.len() as int) + pb
    };
    assert(b =~= head + enc_value(n->Branch_value) + presence(ch) + children_enc(ch, 0));
    assert(head.len() == bhead_len(n));
    assert(enc_value(n->Branch_value).len() == bval_len(n));
    assert(presence(ch).len() == 16);
    if p.len() > 0 {
        assert(pb.len() == p.len() / 2 + p.len() % 2);
        assert(b.subrange(9, 9 + pb.len() as int) =~= pb);
        assert(dec_u64_at(b, 1) == dec_u64_at(enc_u64(p.len() as int), 0)) by {
            assert forall|m: int| 0 <= m < 8 implies b[1 + m] == enc_u64(p.len() as int)[m] by {
                assert(b.subrange(1, 9) =~= enc_u64(p.len() as int));
                assert(b.subrange(1, 9)[m] == b[1 + m]);
            }
        }
        lemma_u64_roundtrip(p.len() as int);
    }
    match n->Branch_value {
        Some(v) => {
            assert(b[bhead_len(n)] == 1u8);
            assert(b.subrange(bhead_len(n) + 9, bhead_len(n) + 9 + v@.len() as int) =~= v@);
            assert(dec_u64_at(b, bhead_len(n) + 1) == dec_u64_at(enc_u64(v@.len() as int), 0)) by {
                assert forall|m: int| 0 <= m < 8 implies b[bhead_len(n) + 1 + m] == enc_u64(
                    v@.len() as int,
                )[m] by {
                    assert(b.subrange(bhead_len(n) + 1, bhead_len(n) + 9) =~= enc_u64(
                        v@.len() as int,
                    ));
                    assert(b.subrange(bhead_len(n) + 1, bhead_len(n) + 9)[m] == b[bhead_len(n) + 1
                        + m]);
                }
            }
            lemma_u64_roundtrip(v@.len() as int);
        },
        None => {
            assert(b[bhead_len(n)] == 0u8);
        },
    }
    assert(b.subrange(bhead_len(n) + bval_len(n), bhead_len(n) + bval_len(n) + 16) =~= presence(
        ch,
    ));
    assert(b.skip(cpos(n)) =~= children_enc(ch, 0));
}

/// The shape of one child reference inside the reference area.
#[verifier::rlimit(100)]
#[verifier::spinoff_prover]
proof fn lemma_child_ref_shape(s: Seq<Node>, m: int, b: Seq<u8>, at: int)
    requires
        s.len() == 16,
        0 <= m < 16,
        0 <= at <= b.len(),
        b.skip(at) == children_enc(s, m),
    ensures
        s[m] is Empty ==> b.skip(at) == children_enc(s, m + 1),
        !(s[m] is Empty) && encoded(s[m]).len() < 32 ==> at + 9 + encoded(s[m]).len() <= b.len()
            && b[at] == 0 && dec_u64_at(b, at + 1) == encoded(s[m]).len() && b.subrange(
            at + 9,
            at + 9 + encoded(s[m]).len() as int,
        ) == encoded(s[m]) && b.skip(at + 9 + encoded(s[m]).len() as int) == children_enc(
            s,
            m + 1,
        ),
        !(s[m] is Empty) && encoded(s[m]).len() >= 32 ==> at + 33 <= b.len() && b[at] == 1
            && b.subrange(at + 1, at + 33) == digest256(encoded(s[m])) && b.skip(at + 33)
            == children_enc(s, m + 1),
{
    assert(children_enc(s, m) == child_ref_enc(s[m]) + children_enc(s, m + 1));
    if s[m] is Empty {
        assert(child_ref_enc(s[m]) =~= Seq::<u8>::empty());
        assert(b.skip(at) =~= children_enc(s, m + 1));
    } else {
        let e = encoded(s[m]);
        if e.len() < 32 {
            assert(child_ref_enc(s[m]) == seq![0u8] + enc_u64(e.len() as int) + e);
            assert(b.skip(at).len() == children_enc(s, m).len());
            assert(b[at] == children_enc(s, m)[0]);
            assert(b.subrange(at + 9, at + 9 + e.len() as int) =~= e) by {
                assert forall|x: int| 0 <= x < e.len() implies b[at + 9 + x] == e[x] by {
                    assert(b.skip(at)[9 + x] == children_enc(s, m)[9 + x]);
                }
            }
            assert(dec_u64_at(b, at + 1) == dec_u64_at(enc_u64(e.len() as int), 0)) by {
                assert forall|x: int| 0 <= x < 8 implies b[at + 1 + x] == enc_u64(
                    e.len() as int,
                )[x] by {
                    assert(b.skip(at)[1 + x] == children_enc(s, m)[1 + x]);
                }
            }
            lemma_u64_roundtrip(e.len() as int);
            assert(b.skip(at).len() == child_ref_enc(s[m]).len() + children_enc(s, m + 1).len());
            assert(at + 9 + e.len() <= b.len());
            assert(b.skip(at + 9 + e.len() as int) =~= children_enc(s, m + 1)) by {
                assert forall|x: int| 0 <= x < children_enc(s, m + 1).len() implies b[at + 9
                    + e.len() + x] == (#[trigger] children_enc(s, m + 1)[x]) by {
                    assert(b.skip(at)[9 + e.len() + x] == children_enc(s, m)[9 + e.len() + x]);
                }
            }
        } else {
            assert(child_ref_enc(s[m]) == seq![1u8] + digest256(e));
            assert(digest256(e).len() == 32);
            assert(b[at] == children_enc(s, m)[0]);
            assert(b.subrange(at + 1, at + 33) =~= digest256(e)) by {
                assert forall|x: int| 0 <= x < 32 implies b[at + 1 + x] == digest256(e)[x] by {
                    assert(b.skip(at)[1 + x] == children_enc(s, m)[1 + x]);
                }
            }
            assert(b.skip(at).len() == child_ref_enc(s[m]).len() + children_enc(s, m + 1).len());
            assert(at + 33 <= b.len());
            assert(b.skip(at + 33) =~= children_enc(s, m + 1)) by {
                assert forall|x: int| 0 <= x < children_enc(s, m + 1).len() implies b[at + 33 + x]
                    == (#[trigger] children_enc(s, m + 1)[x]) by {
                    assert(b.skip(at)[33 + x] == children_enc(s, m)[33 + x]);
                }
            }
        }
    }
}

} // verus!
