//! The trie engine handle.
//!
//! A `JsTrie` owns a working in-memory tree, a content-addressed node
//! store, and the root digest of the last commit. Mutations only touch the
//! working tree; `commit` re-encodes it bottom-up into the store and
//! refreshes the root digest. The abstract view of a trie is the map from
//! byte-string keys to byte-string values.

use vstd::prelude::*;
use crate::codec::{encode_node, root_spec};
use crate::hashing::digest256;
use crate::nibbles::{lemma_to_nibbles_injective, to_nibbles, to_nibbles_spec};
use crate::node::{lemma_nonempty_has_key, lookup, wf, Node};
use crate::ops::{clone_bytes, get_at, insert_at, remove_at};
use crate::store::{store_wf, NodeStore};

verus! {

/// The value of a present binding.
pub open spec fn some_val(o: Option<Seq<u8>>) -> Seq<u8> {
    match o {
        Some(v) => v,
        None => Seq::empty(),
    }
}

/// The digest that identifies the empty trie.
pub open spec fn empty_root() -> Seq<u8> {
    root_spec(Node::Empty)
}

/// A key-value store committed to by a single root digest.
pub struct JsTrie {
    tree: Node,
    store: NodeStore,
    root: Vec<u8>,
    dirty: bool,
}

impl JsTrie {
    /// The internal invariant: the working tree is well-formed, the store
    /// is content-addressed, every stored binding sits on the nibble path
    /// of some byte key, and a clean trie's root digest is the digest of
    /// its encoded tree.
    pub closed spec fn inv(self) -> bool {
        &&& wf(self.tree)
        &&& store_wf(self.store.entries@)
        &&& self.root@.len() == 32
        &&& (!self.dirty ==> self.root@ == root_spec(self.tree))
        &&& (forall|j: Seq<u8>|
            (#[trigger] lookup(self.tree, j)) is Some ==> exists|b: Seq<u8>|
                j == to_nibbles_spec(b))
    }

    /// The committed root digest, as last published by `new` or `commit`.
    pub closed spec fn root_view(self) -> Seq<u8> {
        self.root@
    }

    /// Whether the root digest reflects the working tree (no mutation since
    /// the last commit).
    pub closed spec fn is_clean(self) -> bool {
        !self.dirty
    }

    /// The abstract contents: a map from byte keys to byte values.
    pub closed spec fn view_map(self) -> Map<Seq<u8>, Seq<u8>> {
        Map::new(
            |kb: Seq<u8>| lookup(self.tree, to_nibbles_spec(kb)) is Some,
            |kb: Seq<u8>| some_val(lookup(self.tree, to_nibbles_spec(kb))),
        )
    }

    /// A fresh, empty trie: empty store, root pinned to the empty-trie
    /// digest.
    pub fn new() -> (r: JsTrie)
        ensures
            r.inv(),
            r@ =~= Map::<Seq<u8>, Seq<u8>>::empty(),
            r.is_clean(),
            r.root_view() == empty_root(),
            r.store_len() == 0,
            !r.root_stored(),
    {
        let store = NodeStore::new();
        let tree = Node::Empty;
        let mut enc: Vec<u8> = Vec::new();
        enc.push(0u8);
        proof {
            assert(enc@ =~= crate::codec::encoded(Node::Empty));
        }
        let root = crate::hashing::blake2_256(enc.as_slice());
        let r = JsTrie { tree, store, root, dirty: false };
        proof {
            assert(r@ =~= Map::<Seq<u8>, Seq<u8>>::empty());
        }
        r
    }

    /// Drops every binding and every stored node.
    pub fn clear(&mut self)
        ensures
            final(self).inv(),
            final(self)@ =~= Map::<Seq<u8>, Seq<u8>>::empty(),
            final(self).is_clean(),
            final(self).root_view() == empty_root(),
            final(self).store_len() == 0,
            !final(self).root_stored(),
    {
        self.store.clear();
        self.tree = Node::Empty;
        let mut enc: Vec<u8> = Vec::new();
        enc.push(0u8);
        proof {
            assert(enc@ =~= crate::codec::encoded(Node::Empty));
        }
        self.root = crate::hashing::blake2_256(enc.as_slice());
        self.dirty = false;
        proof {
            assert(final(self)@ =~= Map::<Seq<u8>, Seq<u8>>::empty());
        }
    }

    /// Binds `value` to `key` in the working tree. Any byte string is a
    /// valid key or value; an existing binding is overwritten in place.
    /// The committed root is untouched until the next `commit`.
    pub fn insert(&mut self, key: &Vec<u8>, value: &Vec<u8>) -> (r: bool)
        requires
            old(self).inv(),
        ensures
            r == true,
            final(self).inv(),
            final(self)@ == old(self)@.insert(key@, value@),
            final(self).root_view() == old(self).root_view(),
            final(self).store_view() == old(self).store_view(),
            !final(self).is_clean(),
    {
        let kn = to_nibbles(key.as_slice());
        let mut t = Node::Empty;
        core::mem::swap(&mut t, &mut self.tree);
        let ghost t0 = t;
        let t2 = insert_at(t, &kn, 0, value);
        self.tree = t2;
        self.dirty = true;
        proof {
            assert(kn@.skip(0) =~= kn@);
            assert forall|j: Seq<u8>|
                (#[trigger] lookup(self.tree, j)) is Some implies exists|b: Seq<u8>|
                j == to_nibbles_spec(b) by {
                if j == to_nibbles_spec(key@) {
                    assert(j == to_nibbles_spec(key@));
                } else {
                    assert(lookup(t0, j) is Some);
                }
            }
            assert forall|kb: Seq<u8>| true implies #[trigger] old(self)@.insert(
                key@,
                value@,
            ).contains_key(kb) == final(self)@.contains_key(kb) && (final(self)@.contains_key(kb)
                ==> final(self)@[kb] == old(self)@.insert(key@, value@)[kb]) by {
                if to_nibbles_spec(kb) == to_nibbles_spec(key@) {
                    lemma_to_nibbles_injective(kb, key@);
                }
            }
            assert(final(self)@ =~= old(self)@.insert(key@, value@));
        }
        true
    }

    /// Unbinds `key` in the working tree and re-collapses any branch left
    /// with too little content. Removing an absent key succeeds and leaves
    /// the contents unchanged. The committed root is untouched until the
    /// next `commit`.
    pub fn remove(&mut self, key: &Vec<u8>) -> (r: bool)
        requires
            old(self).inv(),
        ensures
            r == true,
            final(self).inv(),
            final(self)@ == old(self)@.remove(key@),
            final(self).root_view() == old(self).root_view(),
            final(self).store_view() == old(self).store_view(),
            !final(self).is_clean(),
    {
        let kn = to_nibbles(key.as_slice());
        let mut t = Node::Empty;
        core::mem::swap(&mut t, &mut self.tree);
        let ghost t0 = t;
        let t2 = remove_at(t, &kn, 0);
        self.tree = t2;
        self.dirty = true;
        proof {
            assert(kn@.skip(0) =~= kn@);
            assert forall|j: Seq<u8>|
                (#[trigger] lookup(self.tree, j)) is Some implies exists|b: Seq<u8>|
                j == to_nibbles_spec(b) by {
                assert(lookup(t0, j) is Some);
            }
            assert forall|kb: Seq<u8>| true implies #[trigger] old(self)@.remove(
                key@,
            ).contains_key(kb) == final(self)@.contains_key(kb) && (final(self)@.contains_key(kb)
                ==> final(self)@[kb] == old(self)@.remove(key@)[kb]) by {
                if to_nibbles_spec(kb) == to_nibbles_spec(key@) {
                    lemma_to_nibbles_injective(kb, key@);
                }
            }
            assert(final(self)@ =~= old(self)@.remove(key@));
        }
        true
    }

    /// Notes that the working tree's own path and value fit in memory, so
    /// the tree is a parseable preimage of its encoding.
    fn observe_sizes(n: &Node)
        ensures
            crate::codec::sizes_ok(*n),
    {
        match n {
            Node::Empty => {},
            Node::Leaf { path, value } => {
                let p = path.len();
                let v = value.len();
                proof {
                    assert(p == path@.len() && v == value@.len());
                }
            },
            Node::Branch { path, value, children } => {
                let p = path.len();
                proof {
                    assert(p == path@.len());
                }
                match value {
                    Some(v) => {
                        let vl = v.len();
                        proof {
                            assert(vl == v@.len());
                        }
                    },
                    None => {},
                }
            },
        }
    }

    /// Publishes the working tree: every dirty node is encoded bottom-up,
    /// hash-referenced nodes are stored, and the root digest becomes the
    /// digest of the top node's encoding. Committing a clean trie changes
    /// nothing, so two commits with no mutation between them publish the
    /// same root.
    pub fn commit(&mut self) -> (r: bool)
        requires
            old(self).inv(),
        ensures
            r == true,
            final(self).inv(),
            final(self)@ == old(self)@,
            final(self).is_clean(),
            old(self).is_clean() ==> final(self).root_view() == old(self).root_view()
                && final(self).store_view() == old(self).store_view(),
            !old(self).is_clean() ==> final(self).root_stored() && final(self).stored_root_bytes()
                == crate::codec::encoded(final(self).tree_spec()) && crate::codec::child_refs_present(
                final(self).tree_spec(),
                final(self).store_view(),
            ) && crate::codec::parse_hyp(final(self).tree_spec(), final(self).stored_root_bytes()),
    {
        if self.dirty {
            Self::observe_sizes(&self.tree);
            self.store.clear();
            let enc = encode_node(&self.tree, &mut self.store);
            let ghost s_encoded = self.store.entries@;
            let d = self.store.put(&enc);
            self.root = d;
            self.dirty = false;
            proof {
                assert(final(self)@ =~= old(self)@);
                assert(crate::codec::store_extends(self.store.entries@, s_encoded));
                crate::codec::lemma_refs_present_monotone(
                    self.tree,
                    s_encoded,
                    self.store.entries@,
                );
            }
        }
        true
    }

    /// The committed root digest (32 bytes).
    pub fn root(&self) -> (r: Vec<u8>)
        requires
            self.inv(),
        ensures
            r@ == self.root_view(),
            r@.len() == 32,
    {
        clone_bytes(&self.root)
    }

    /// Reads through the working tree, so the result reflects every
    /// mutation, committed or not: the value bound to `key`, or `None`.
    pub fn get(&self, key: &Vec<u8>) -> (r: Option<Vec<u8>>)
        requires
            self.inv(),
        ensures
            match r {
                Some(v) => self@.contains_key(key@) && v@ == self@[key@],
                None => !self@.contains_key(key@),
            },
    {
        let kn = to_nibbles(key.as_slice());
        let r = get_at(&self.tree, &kn, 0);
        proof {
            assert(kn@.skip(0) =~= kn@);
        }
        r
    }

    /// Whether the last committed root's node is present in the store.
    pub closed spec fn root_stored(self) -> bool {
        crate::store::has_digest(self.store.entries@, self.root@)
    }

    /// The store's entries, for framing: which operations change it.
    pub closed spec fn store_view(self) -> Seq<crate::store::StoreEntry> {
        self.store.entries@
    }

    /// The encoded bytes stored under the committed root digest.
    pub closed spec fn stored_root_bytes(self) -> Seq<u8> {
        crate::store::bytes_for(self.store.entries@, self.root@)
    }

    /// Materialises the committed trie from its root as host records:
    /// every hash-referenced child is resolved through the store, and an
    /// unresolvable or malformed child is omitted rather than failing the
    /// walk. Yields `None` when the trie is empty: when the root's node is
    /// not stored (as in a freshly created trie), or when the stored root
    /// is the empty node.
    pub fn db_values(&self) -> (r: Option<crate::inspect::InspectRecord>)
        requires
            self.inv(),
        ensures
            r is Some <==> (self.root_stored() && self.stored_root_bytes() != crate::codec::encoded(
                Node::Empty,
            )),
            r matches Some(rec) ==> forall|n: Node|
                #[trigger] crate::codec::parse_hyp(n, self.stored_root_bytes())
                    ==> crate::inspect::record_mirrors(
                    rec,
                    n,
                    Some(self.root_view()),
                    self.store_view(),
                    self.store_len(),
                ),
    {
        match self.store.get(&self.root) {
            Some(root_data) => {
                if root_data.len() == 1 && root_data[0] == 0 {
                    proof {
                        assert(root_data@ =~= crate::codec::encoded(Node::Empty));
                    }
                    None
                } else {
                    proof {
                        assert(crate::codec::encoded(Node::Empty) =~= seq![0u8]);
                        assert(root_data@ != crate::codec::encoded(Node::Empty));
                    }
                    let id = clone_bytes(&self.root);
                    let node = crate::inspect::decode_recursive(
                        root_data.as_slice(),
                        Some(id),
                        &self.store,
                        self.store.entries.len(),
                    );
                    let rec = node.encode();
                    proof {
                        assert forall|n: Node|
                            #[trigger] crate::codec::parse_hyp(n, self.stored_root_bytes()) implies
                            crate::inspect::record_mirrors(
                            rec,
                            n,
                            Some(self.root_view()),
                            self.store_view(),
                            self.store_len(),
                        ) by {
                            assert(crate::inspect::mirrors_with_children(
                                node,
                                n,
                                Some(self.root@),
                                self.store.entries@,
                                self.store_len(),
                            ));
                            assert(crate::inspect::record_matches(rec, node));
                        }
                    }
                    Some(rec)
                }
            },
            None => None,
        }
    }

    /// A dump of every stored node: each entry's digest and encoded bytes.
    pub fn values(&self) -> (r: Vec<(Vec<u8>, Vec<u8>)>)
        requires
            self.inv(),
        ensures
            r@.len() == self.store_len(),
            forall|m: int|
                0 <= m < r@.len() ==> (#[trigger] r@[m]).0@ == self.store_digest(m)
                    && r@[m].1@ == self.store_bytes(m) && r@[m].0@ == digest256(r@[m].1@),
            forall|a: int, b: int|
                0 <= a < b < r@.len() ==> (#[trigger] r@[a]).0@ != (#[trigger] r@[b]).0@,
    {
        let mut out: Vec<(Vec<u8>, Vec<u8>)> = Vec::new();
        let mut m: usize = 0;
        while m < self.store.entries.len()
            invariant
                self.inv(),
                m <= self.store.entries@.len(),
                out@.len() == m,
                forall|x: int|
                    0 <= x < m ==> (#[trigger] out@[x]).0@ == self.store.entries@[x].digest@
                        && out@[x].1@ == self.store.entries@[x].bytes@,
            decreases self.store.entries@.len() - m,
        {
            let d = clone_bytes(&self.store.entries[m].digest);
            let b = clone_bytes(&self.store.entries[m].bytes);
            out.push((d, b));
            m = m + 1;
        }
        out
    }

    /// How many distinct nodes the store holds.
    pub closed spec fn store_len(self) -> nat {
        self.store.entries@.len()
    }

    /// The digest of the stored entry at position `m`.
    pub closed spec fn store_digest(self, m: int) -> Seq<u8> {
        self.store.entries@[m].digest@
    }

    /// The encoded bytes of the stored entry at position `m`.
    pub closed spec fn store_bytes(self, m: int) -> Seq<u8> {
        self.store.entries@[m].bytes@
    }
}

impl View for JsTrie {
    type V = Map<Seq<u8>, Seq<u8>>;

    open spec fn view(&self) -> Map<Seq<u8>, Seq<u8>> {
        self.view_map()
    }
}

/// A trie with empty contents has, by canonicity, the empty working tree.
pub proof fn lemma_empty_contents(t: JsTrie)
    requires
        t.inv(),
        t@ == Map::<Seq<u8>, Seq<u8>>::empty(),
    ensures
        t.tree_spec() is Empty,
{
    if !(t.tree_spec() is Empty) {
        lemma_nonempty_has_key(t.tree_spec());
        let j = choose|j: Seq<u8>| (#[trigger] lookup(t.tree_spec(), j)) is Some;
        let b = choose|b: Seq<u8>| j == to_nibbles_spec(b);
        assert(t@.contains_key(b));
        assert(false);
    }
}

/// A trie whose contents are empty and whose root is published is
/// committed to the canonical empty-trie digest, however many no-op
/// mutation cycles it went through.
pub proof fn lemma_empty_root(t: JsTrie)
    requires
        t.inv(),
        t.is_clean(),
        t@ == Map::<Seq<u8>, Seq<u8>>::empty(),
    ensures
        t.root_view() == empty_root(),
{
    lemma_empty_contents(t);
}

impl JsTrie {
    /// The working tree (for internal laws).
    pub closed spec fn tree_spec(self) -> Node {
        self.tree
    }
}

/// The committed root is determined by the contents alone: two tries that
/// store the same map and have published their trees commit to the same
/// root digest. Since `insert` and `remove` are specified on the map, the
/// order in which one set of bindings was inserted cannot change the root.
pub proof fn lemma_root_determined_by_contents(t1: JsTrie, t2: JsTrie)
    requires
        t1.inv(),
        t2.inv(),
        t1.is_clean(),
        t2.is_clean(),
        t1@ == t2@,
    ensures
        t1.root_view() == t2.root_view(),
{
    assert forall|j: Seq<u8>| #[trigger] lookup(t1.tree_spec(), j) == lookup(
        t2.tree_spec(),
        j,
    ) by {
        if exists|b: Seq<u8>| j == to_nibbles_spec(b) {
            let b = choose|b: Seq<u8>| j == to_nibbles_spec(b);
            assert(t1@.contains_key(b) == (lookup(t1.tree_spec(), j) is Some));
            assert(t2@.contains_key(b) == (lookup(t2.tree_spec(), j) is Some));
            if t1@.contains_key(b) {
                assert(t1@[b] == some_val(lookup(t1.tree_spec(), j)));
                assert(t2@[b] == some_val(lookup(t2.tree_spec(), j)));
            }
        } else {
            if lookup(t1.tree_spec(), j) is Some {
                assert(exists|b: Seq<u8>| j == to_nibbles_spec(b));
            }
            if lookup(t2.tree_spec(), j) is Some {
                assert(exists|b: Seq<u8>| j == to_nibbles_spec(b));
            }
        }
    }
    crate::codec::lemma_encoded_extensional(t1.tree_spec(), t2.tree_spec());
}

} // verus!
