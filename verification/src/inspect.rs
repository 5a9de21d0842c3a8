//! The inspection layer.
//!
//! Starting from a committed root, it resolves every hash-referenced child
//! through the node store, materialises the committed structure as a
//! `TrieNode` tree, and renders that tree as generic host records. The walk
//! is deliberately lenient: a child whose digest is missing from the store,
//! or whose bytes fail to decode, is omitted rather than failing the walk —
//! this only ever affects diagnostic output, never the engine itself.

use vstd::prelude::*;
use crate::codec::{decode_plan, parse_hyp, ChildRef};
use crate::nibbles::{hex_digit, hex_of, u8_to_hex_vec};
use crate::node::{opt_bytes, Node};
use crate::store::{bytes_for, has_digest, store_wf, NodeStore};

verus! {

/// A fully materialised node of a committed trie. `id` carries the digest
/// under which the node is separately stored; an inline node carries none.
/// `nibbles` is the path as the codec stores it: the alignment offset and
/// the packed bytes. Branch children are tagged with the nibble selecting
/// them, in ascending nibble order.
pub enum TrieNode {
    Empty { id: Option<Vec<u8>> },
    Leaf { id: Option<Vec<u8>>, nibbles: (usize, Vec<u8>), value: Vec<u8> },
    Branch { id: Option<Vec<u8>>, value: Option<Vec<u8>>, children: Vec<(u8, TrieNode)> },
    NibbledBranch {
        id: Option<Vec<u8>>,
        nibbles: (usize, Vec<u8>),
        value: Option<Vec<u8>>,
        children: Vec<(u8, TrieNode)>,
    },
}

/// Whether a carried digest denotes the given one.
pub open spec fn id_matches(tid: Option<Vec<u8>>, id: Option<Seq<u8>>) -> bool {
    match (tid, id) {
        (Some(tv), Some(iv)) => tv@ == iv,
        (None, None) => true,
        _ => false,
    }
}

/// Whether a materialised node reproduces `n`'s own fields. Its children
/// are pinned slot by slot by the contract of the children walk.
pub open spec fn mirrors_shallow(t: TrieNode, n: Node, id: Option<Seq<u8>>) -> bool {
    match n {
        Node::Empty => (match t {
            TrieNode::Empty { id: tid } => id_matches(tid, id),
            _ => false,
        }),
        Node::Leaf { path, value } => (match t {
            TrieNode::Leaf { id: tid, nibbles, value: tv } => id_matches(tid, id) && nibbles.0
                == path@.len() % 2 && nibbles.1@ == crate::nibbles::packed_nibbles(path@) && tv@
                == value@,
            _ => false,
        }),
        Node::Branch { path, value, .. } => (match t {
            TrieNode::Branch { id: tid, value: tv, .. } => path@.len() == 0 && id_matches(tid, id)
                && (match (tv, value) {
                (Some(a), Some(b)) => a@ == b@,
                (None, None) => true,
                _ => false,
            }),
            TrieNode::NibbledBranch { id: tid, nibbles, value: tv, .. } => path@.len() > 0
                && id_matches(tid, id) && nibbles.0 == path@.len() % 2 && nibbles.1@
                == crate::nibbles::packed_nibbles(path@) && (match (tv, value) {
                (Some(a), Some(b)) => a@ == b@,
                (None, None) => true,
                _ => false,
            }),
            _ => false,
        }),
    }
}

/// Whether a child slot resolves during the walk: an inline child always,
/// a hash-referenced child when the depth budget is live and its digest is
/// stored, an absent child never.
pub open spec fn slot_resolved(
    cr: Option<ChildRef>,
    db: Seq<crate::store::StoreEntry>,
    fuel: nat,
) -> bool {
    match cr {
        None => false,
        Some(ChildRef::Inline(_)) => true,
        Some(ChildRef::Hash(d)) => fuel > 0 && has_digest(db, d@),
    }
}

/// Whether a materialised child is the decode of its reference: an inline
/// child decodes its embedded bytes and carries no digest; a resolved hash
/// child decodes the stored bytes and carries its digest.
pub open spec fn slot_mirrors(
    t: TrieNode,
    cr: Option<ChildRef>,
    db: Seq<crate::store::StoreEntry>,
) -> bool {
    match cr {
        Some(ChildRef::Inline(bb)) => forall|n: Node|
            #[trigger] parse_hyp(n, bb@) ==> mirrors_shallow(t, n, None::<Seq<u8>>),
        Some(ChildRef::Hash(d)) => forall|n: Node|
            #[trigger] parse_hyp(n, bytes_for(db, d@)) ==> mirrors_shallow(t, n, Some(d@)),
        None => true,
    }
}

/// The tagged children of a materialised branch (empty for other nodes).
pub open spec fn t_children(t: TrieNode) -> Seq<(u8, TrieNode)> {
    match t {
        TrieNode::Branch { children, .. } => children@,
        TrieNode::NibbledBranch { children, .. } => children@,
        _ => Seq::empty(),
    }
}

/// Whether an encoded node's child in slot `c` resolves during the walk:
/// an inline (small) child always, a hash-referenced child when the depth
/// budget is live and its digest is stored, an absent child never.
pub open spec fn node_slot_resolved(c: Node, db: Seq<crate::store::StoreEntry>, fuel: nat) -> bool {
    !(c is Empty) && (crate::codec::encoded(c).len() < 32 || (fuel > 0 && has_digest(
        db,
        crate::hashing::digest256(crate::codec::encoded(c)),
    )))
}

/// Whether a materialised child is the decode of the encoded node's child
/// `c`: an inline child decodes `c`'s own encoding and carries no digest;
/// a hash-referenced child decodes the bytes stored under `c`'s digest and
/// carries that digest.
pub open spec fn node_slot_mirrors(
    tx: TrieNode,
    c: Node,
    db: Seq<crate::store::StoreEntry>,
) -> bool {
    if crate::codec::encoded(c).len() < 32 {
        forall|n2: Node|
            #[trigger] parse_hyp(n2, crate::codec::encoded(c)) ==> mirrors_shallow(
                tx,
                n2,
                None::<Seq<u8>>,
            )
    } else {
        forall|n2: Node|
            #[trigger] parse_hyp(
                n2,
                bytes_for(db, crate::hashing::digest256(crate::codec::encoded(c))),
            ) ==> mirrors_shallow(
                tx,
                n2,
                Some(crate::hashing::digest256(crate::codec::encoded(c))),
            )
    }
}

/// A materialised children list is pinned against an encoded branch's own
/// sixteen child slots: every entry names a resolvable slot and is the
/// decode of that slot's child, every resolvable slot appears, and entries
/// come in ascending nibble order.
pub open spec fn children_pinned(
    cs: Seq<(u8, TrieNode)>,
    nch: Seq<Node>,
    db: Seq<crate::store::StoreEntry>,
    fuel: nat,
) -> bool {
    &&& forall|a: int|
        0 <= a < cs.len() ==> (#[trigger] cs[a]).0 < 16 && nch.len() == 16 && node_slot_resolved(
            nch[cs[a].0 as int],
            db,
            fuel,
        ) && node_slot_mirrors(cs[a].1, nch[cs[a].0 as int], db)
    &&& forall|x: int|
        0 <= x < nch.len() && nch.len() == 16 && #[trigger] node_slot_resolved(nch[x], db, fuel)
            ==> exists|a: int| 0 <= a < cs.len() && (#[trigger] cs[a]).0 == x
    &&& forall|a: int, b: int| 0 <= a < b < cs.len() ==> (#[trigger] cs[a]).0 < (#[trigger] cs[b]).0
}

/// Whether a materialised node reproduces the encoded node `n` one level
/// deep: its own fields, and for a branch its children slot by slot.
pub open spec fn mirrors_with_children(
    t: TrieNode,
    n: Node,
    id: Option<Seq<u8>>,
    db: Seq<crate::store::StoreEntry>,
    fuel: nat,
) -> bool {
    mirrors_shallow(t, n, id) && (n matches Node::Branch { children, .. } ==> children_pinned(
        t_children(t),
        children@,
        db,
        fuel,
    ))
}

/// Resolves and materialises the sixteen child references of a branch:
/// exactly the resolvable slots appear, in ascending slot order, each the
/// decode of its reference; an unresolvable slot is the only omission.
fn decode_children_recursive(
    children: &Vec<Option<ChildRef>>,
    db: &NodeStore,
    fuel: usize,
    Ghost(lim): Ghost<int>,
) -> (r: Vec<(u8, TrieNode)>)
    requires
        store_wf(db.entries@),
        children@.len() <= 16,
        forall|x: int|
            0 <= x < children@.len() ==> crate::codec::inline_smaller(
                #[trigger] children@[x],
                lim,
            ),
    ensures
        forall|a: int|
            0 <= a < r@.len() ==> (#[trigger] r@[a]).0 < children@.len() && slot_resolved(
                children@[r@[a].0 as int],
                db.entries@,
                fuel as nat,
            ) && slot_mirrors(r@[a].1, children@[r@[a].0 as int], db.entries@),
        forall|x: int|
            0 <= x < children@.len() && #[trigger] slot_resolved(
                children@[x],
                db.entries@,
                fuel as nat,
            ) ==> exists|a: int| 0 <= a < r@.len() && (#[trigger] r@[a]).0 == x,
        forall|a: int, b: int| 0 <= a < b < r@.len() ==> (#[trigger] r@[a]).0 < (#[trigger] r@[b]).0,
    decreases fuel, lim, 0int,
{
    let mut out: Vec<(u8, TrieNode)> = Vec::new();
    let mut m: usize = 0;
    while m < children.len()
        invariant
            store_wf(db.entries@),
            children@.len() <= 16,
            forall|x: int|
                0 <= x < children@.len() ==> crate::codec::inline_smaller(
                    #[trigger] children@[x],
                    lim,
                ),
            m <= children@.len(),
            forall|a: int|
                0 <= a < out@.len() ==> (#[trigger] out@[a]).0 < m && slot_resolved(
                    children@[out@[a].0 as int],
                    db.entries@,
                    fuel as nat,
                ) && slot_mirrors(out@[a].1, children@[out@[a].0 as int], db.entries@),
            forall|x: int|
                0 <= x < m && #[trigger] slot_resolved(children@[x], db.entries@, fuel as nat)
                    ==> exists|a: int| 0 <= a < out@.len() && (#[trigger] out@[a]).0 == x,
            forall|a: int, b: int|
                0 <= a < b < out@.len() ==> (#[trigger] out@[a]).0 < (#[trigger] out@[b]).0,
        decreases children@.len() - m,
    {
        let ghost out0 = out@;
        let mut added = false;
        match &children[m] {
            None => {},
            Some(ChildRef::Inline(bytes)) => {
                proof {
                    assert(crate::codec::inline_smaller(children@[m as int], lim));
                }
                let node = decode_recursive(bytes.as_slice(), None, db, fuel);
                proof {
                    assert(slot_resolved(children@[m as int], db.entries@, fuel as nat));
                    assert(slot_mirrors(node, children@[m as int], db.entries@));
                }
                out.push((m as u8, node));
                added = true;
            },
            Some(ChildRef::Hash(digest)) => {
                if fuel > 0 {
                    match db.get(digest) {
                        Some(bytes) => {
                            let id = crate::ops::clone_bytes(digest);
                            let node = decode_recursive(bytes.as_slice(), Some(id), db, fuel - 1);
                            proof {
                                assert(slot_resolved(
                                    children@[m as int],
                                    db.entries@,
                                    fuel as nat,
                                ));
                                assert(slot_mirrors(node, children@[m as int], db.entries@));
                            }
                            out.push((m as u8, node));
                            added = true;
                        },
                        None => {},
                    }
                }
            },
        }
        proof {
            if added {
                assert(out@ == out0.push(out@.last()));
                assert(out@.last().0 == m as u8);
                assert((m as u8) as int == m as int);
            } else {
                assert(out@ == out0);
                assert(!slot_resolved(children@[m as int], db.entries@, fuel as nat));
            }
            assert forall|x: int|
                0 <= x < m + 1 && #[trigger] slot_resolved(
                    children@[x],
                    db.entries@,
                    fuel as nat,
                ) implies exists|a: int| 0 <= a < out@.len() && (#[trigger] out@[a]).0 == x by {
                if x < m {
                    let a0 = choose|a0: int| 0 <= a0 < out0.len() && (#[trigger] out0[a0]).0 == x;
                    assert(out@[a0] == out0[a0]);
                    assert(out@[a0].0 == x);
                } else {
                    assert(out@[out@.len() - 1].0 == x);
                }
            }
        }
        m = m + 1;
    }
    out
}

/// Decodes one stored encoding and materialises the subtree under it,
/// resolving hash references through the store. Bytes that carry no
/// plausible header materialise as an anonymous `Empty` node, and so do
/// any others that fail to decode. For every well-formed encoding the
/// result provably reproduces the encoded node's own fields, and a
/// branch's children slot by slot, in ascending nibble order.
#[verifier::rlimit(100)]
#[verifier::spinoff_prover]
pub fn decode_recursive(bytes: &[u8], node_id: Option<Vec<u8>>, db: &NodeStore, fuel: usize) -> (r:
    TrieNode)
    requires
        store_wf(db.entries@),
    ensures
        forall|n: Node|
            #[trigger] crate::codec::parse_hyp(n, bytes@) ==> mirrors_with_children(
                r,
                n,
                opt_bytes(node_id),
                db.entries@,
                fuel as nat,
            ),
        bytes@.len() == 0 || bytes@[0] > 3 ==> r == (TrieNode::Empty { id: None::<Vec<u8>> }),
    decreases fuel, bytes@.len(), 1int,
{
    match decode_plan(bytes) {
        None => TrieNode::Empty { id: None },
        Some(plan) => {
            if plan.tag == 0 {
                TrieNode::Empty { id: node_id }
            } else if plan.tag == 1 {
                let value = match plan.value {
                    Some(v) => v,
                    None => Vec::new(),
                };
                TrieNode::Leaf {
                    id: node_id,
                    nibbles: (plan.path_count % 2, plan.path_packed),
                    value,
                }
            } else if plan.tag == 2 || plan.tag == 3 {
                let kids = decode_children_recursive(
                    &plan.children,
                    db,
                    fuel,
                    Ghost(bytes@.len() as int),
                );
                let r = if plan.tag == 2 {
                    TrieNode::Branch { id: node_id, value: plan.value, children: kids }
                } else {
                    TrieNode::NibbledBranch {
                        id: node_id,
                        nibbles: (plan.path_count % 2, plan.path_packed),
                        value: plan.value,
                        children: kids,
                    }
                };
                proof {
                    assert(t_children(r) == kids@);
                    assert forall|n: Node| #[trigger] crate::codec::parse_hyp(n, bytes@) implies
                        mirrors_with_children(
                        r,
                        n,
                        opt_bytes(node_id),
                        db.entries@,
                        fuel as nat,
                    ) by {
                        let nch = n->Branch_children@;
                        let refs = plan.children@;
                        assert(refs.len() == 16);
                        assert forall|a: int| 0 <= a < kids@.len() implies (
                        #[trigger] kids@[a]).0 < 16 && nch.len() == 16 && node_slot_resolved(
                            nch[kids@[a].0 as int],
                            db.entries@,
                            fuel as nat,
                        ) && node_slot_mirrors(kids@[a].1, nch[kids@[a].0 as int], db.entries@) by {
                            let x = kids@[a].0 as int;
                            assert(crate::codec::child_ref_match(refs[x], nch[x]));
                            assert(slot_resolved(refs[x], db.entries@, fuel as nat));
                            assert(slot_mirrors(kids@[a].1, refs[x], db.entries@));
                        }
                        assert forall|x: int|
                            0 <= x < nch.len() && nch.len() == 16 && #[trigger] node_slot_resolved(
                                nch[x],
                                db.entries@,
                                fuel as nat,
                            ) implies exists|a: int|
                            0 <= a < kids@.len() && (#[trigger] kids@[a]).0 == x by {
                            assert(crate::codec::child_ref_match(refs[x], nch[x]));
                            assert(slot_resolved(refs[x], db.entries@, fuel as nat));
                        }
                        assert(children_pinned(kids@, nch, db.entries@, fuel as nat));
                    }
                }
                r
            } else {
                TrieNode::Empty { id: None }
            }
        },
    }
}

/// A generic host-facing record with a fixed schema: the node's variant
/// name, its own digest and nibble path as lowercase hex text, its value
/// bytes, the nibble (as one hex character) that selects it under its
/// parent, and its materialised children.
pub struct InspectRecord {
    pub node_type: Vec<u8>,
    pub id: Option<Vec<u8>>,
    pub nibbles: Option<Vec<u8>>,
    pub value: Option<Vec<u8>>,
    pub parent_nibble: Option<u8>,
    pub children: Option<Vec<InspectRecord>>,
}

/// The variant name a record carries; an extended branch renders as a
/// plain branch, its nibble path telling them apart.
pub open spec fn type_text(t: TrieNode) -> Seq<u8> {
    match t {
        TrieNode::Empty { .. } => seq![69u8, 109u8, 112u8, 116u8, 121u8],
        TrieNode::Leaf { .. } => seq![76u8, 101u8, 97u8, 102u8],
        TrieNode::Branch { .. } => seq![66u8, 114u8, 97u8, 110u8, 99u8, 104u8],
        TrieNode::NibbledBranch { .. } => seq![66u8, 114u8, 97u8, 110u8, 99u8, 104u8],
    }
}

/// The digest a materialised node carries, if any.
pub open spec fn id_of(t: TrieNode) -> Option<Vec<u8>> {
    match t {
        TrieNode::Empty { id } => id,
        TrieNode::Leaf { id, .. } => id,
        TrieNode::Branch { id, .. } => id,
        TrieNode::NibbledBranch { id, .. } => id,
    }
}

/// The hex text of a nibble path, with the alignment nibble dropped when
/// the path starts mid-byte.
pub open spec fn nibbles_text(offset: nat, packed: Seq<u8>) -> Seq<u8> {
    if offset > 0 && packed.len() > 0 {
        hex_of(packed).skip(1)
    } else {
        hex_of(packed)
    }
}

/// Renders a nibble path as hex text.
fn render_nibbles(nibbles: &(usize, Vec<u8>)) -> (r: Vec<u8>)
    ensures
        r@ == nibbles_text(nibbles.0 as nat, nibbles.1@),
{
    let mut out = u8_to_hex_vec(nibbles.1.as_slice());
    if nibbles.0 > 0 && out.len() > 0 {
        let _ = out.remove(0);
        proof {
            assert(out@ =~= hex_of(nibbles.1@).skip(1));
        }
    }
    out
}

/// Renders an optional digest as hex text.
fn render_id(id: &Option<Vec<u8>>) -> (r: Option<Vec<u8>>)
    ensures
        match (r, id) {
            (Some(t), Some(d)) => t@ == hex_of(d@),
            (None, None) => true,
            _ => false,
        },
{
    match id {
        Some(d) => Some(u8_to_hex_vec(d.as_slice())),
        None => None,
    }
}

/// Whether a record carries exactly a materialised node's own fields:
/// its variant name, its digest and nibble path as hex text, its value,
/// and a children list of the same arity (branch variants only).
pub open spec fn record_head_matches(r: InspectRecord, t: TrieNode) -> bool {
    &&& r.node_type@ == type_text(t)
    &&& (match (r.id, id_of(t)) {
        (Some(tx), Some(d)) => tx@ == hex_of(d@),
        (None, None) => true,
        _ => false,
    })
    &&& (match t {
        TrieNode::Empty { id } => r.nibbles is None && r.value is None && r.children is None,
        TrieNode::Leaf { id, nibbles, value } => {
            &&& (r.nibbles matches Some(tx) && tx@ == nibbles_text(nibbles.0 as nat, nibbles.1@))
            &&& (r.value matches Some(v) && v@ == value@)
            &&& r.children is None
        },
        TrieNode::Branch { id, value, children } => {
            &&& r.nibbles is None
            &&& (match (r.value, value) {
                (Some(a), Some(b)) => a@ == b@,
                (None, None) => true,
                _ => false,
            })
            &&& (r.children matches Some(cs) && cs@.len() == children@.len())
        },
        TrieNode::NibbledBranch { id, nibbles, value, children } => {
            &&& (r.nibbles matches Some(tx) && tx@ == nibbles_text(nibbles.0 as nat, nibbles.1@))
            &&& (match (r.value, value) {
                (Some(a), Some(b)) => a@ == b@,
                (None, None) => true,
                _ => false,
            })
            &&& (r.children matches Some(cs) && cs@.len() == children@.len())
        },
    })
}

/// Whether a record renders a materialised node in full: its own fields,
/// and recursively its children, each tagged with the hex character of its
/// selecting nibble, in the children's own order.
pub open spec fn record_matches(rec: InspectRecord, t: TrieNode) -> bool
    decreases t, 30int, 0int,
{
    record_head_matches(rec, t) && (match t {
        TrieNode::Branch { children, .. } => (rec.children matches Some(cs)
            && children_records_match(cs@, children@, 0)),
        TrieNode::NibbledBranch { children, .. } => (rec.children matches Some(cs)
            && children_records_match(cs@, children@, 0)),
        _ => true,
    })
}

/// The child records from position `m` on each render their child, tagged
/// with its selecting nibble.
pub open spec fn children_records_match(
    cs: Seq<InspectRecord>,
    ch: Seq<(u8, TrieNode)>,
    m: int,
) -> bool
    decreases ch, 31int, ch.len() - m,
{
    if m < 0 || m >= ch.len() {
        cs.len() == ch.len()
    } else {
        &&& cs.len() == ch.len()
        &&& cs[m].parent_nibble == Some(hex_digit(ch[m].0 % 16))
        &&& record_matches(cs[m], ch[m].1)
        &&& children_records_match(cs, ch, m + 1)
    }
}

/// Recordwise matching folds into the positional form.
proof fn lemma_children_records_fold(cs: Seq<InspectRecord>, ch: Seq<(u8, TrieNode)>, m: int)
    requires
        cs.len() == ch.len(),
        forall|x: int|
            0 <= x < ch.len() ==> record_matches(#[trigger] cs[x], ch[x].1) && cs[x].parent_nibble
                == Some(hex_digit(ch[x].0 % 16)),
    ensures
        children_records_match(cs, ch, m),
    decreases ch.len() - m,
{
    if 0 <= m < ch.len() {
        assert(record_matches(cs[m], ch[m].1));
        lemma_children_records_fold(cs, ch, m + 1);
    }
}

/// Whether a record renders, in full, some materialised node that
/// reproduces `n` one level deep under digest `id`: the record's own
/// fields come from `n`, and its children — pinned slot by slot against
/// `n`'s children by `mirrors_with_children` — are rendered recursively.
pub open spec fn record_mirrors(
    rec: InspectRecord,
    n: Node,
    id: Option<Seq<u8>>,
    db: Seq<crate::store::StoreEntry>,
    fuel: nat,
) -> bool {
    exists|t: TrieNode|
        #[trigger] mirrors_with_children(t, n, id, db, fuel) && record_matches(rec, t)
}

impl TrieNode {
    /// Renders the subtree as host records: variant name, hex digest, hex
    /// nibble path, value bytes, and children each tagged with the hex
    /// character of the nibble that selects it.
    pub fn encode(&self) -> (r: InspectRecord)
        ensures
            record_matches(r, *self),
            r.parent_nibble is None,
        decreases *self, 1int,
    {
        match self {
            TrieNode::Empty { id } => InspectRecord {
                node_type: vec![69u8, 109u8, 112u8, 116u8, 121u8],
                id: render_id(id),
                nibbles: None,
                value: None,
                parent_nibble: None,
                children: None,
            },
            TrieNode::Leaf { id, nibbles, value } => InspectRecord {
                node_type: vec![76u8, 101u8, 97u8, 102u8],
                id: render_id(id),
                nibbles: Some(render_nibbles(nibbles)),
                value: Some(crate::ops::clone_bytes(value)),
                parent_nibble: None,
                children: None,
            },
            TrieNode::Branch { id, value, children } => {
                proof {
                    assert(decreases_to!(*self => *children));
                    assert(decreases_to!(*children => children@));
                }
                let cs = Self::encode_children(children);
                proof {
                    lemma_children_records_fold(cs@, children@, 0);
                }
                InspectRecord {
                    node_type: vec![66u8, 114u8, 97u8, 110u8, 99u8, 104u8],
                    id: render_id(id),
                    nibbles: None,
                    value: match value {
                        Some(v) => Some(crate::ops::clone_bytes(v)),
                        None => None,
                    },
                    parent_nibble: None,
                    children: Some(cs),
                }
            },
            TrieNode::NibbledBranch { id, nibbles, value, children } => {
                proof {
                    assert(decreases_to!(*self => *children));
                    assert(decreases_to!(*children => children@));
                }
                let cs = Self::encode_children(children);
                proof {
                    lemma_children_records_fold(cs@, children@, 0);
                }
                InspectRecord {
                    node_type: vec![66u8, 114u8, 97u8, 110u8, 99u8, 104u8],
                    id: render_id(id),
                    nibbles: Some(render_nibbles(nibbles)),
                    value: match value {
                        Some(v) => Some(crate::ops::clone_bytes(v)),
                        None => None,
                    },
                    parent_nibble: None,
                    children: Some(cs),
                }
            },
        }
    }

    /// Renders a branch's present children, each tagged with the hex
    /// character of its selecting nibble, in ascending nibble order.
    fn encode_children(children: &Vec<(u8, TrieNode)>) -> (r: Vec<InspectRecord>)
        ensures
            r@.len() == children@.len(),
            forall|m: int|
                0 <= m < r@.len() ==> record_matches(#[trigger] r@[m], children@[m].1)
                    && r@[m].parent_nibble == Some(hex_digit(children@[m].0 % 16)),
        decreases children@, 0int,
    {
        let mut out: Vec<InspectRecord> = Vec::new();
        let mut m: usize = 0;
        while m < children.len()
            invariant
                m <= children@.len(),
                out@.len() == m,
                forall|x: int|
                    0 <= x < out@.len() ==> record_matches(#[trigger] out@[x], children@[x].1)
                        && out@[x].parent_nibble == Some(hex_digit(children@[x].0 % 16)),
            decreases children@.len() - m,
        {
            proof {
                assert(decreases_to!(children@ => children@[m as int]));
            }
            let mut rec = children[m].1.encode();
            let nib = children[m].0 % 16;
            let code: u8 = if nib < 10 {
                nib + 48
            } else {
                nib + 87
            };
            rec.parent_nibble = Some(code);
            out.push(rec);
            m = m + 1;
        }
        out
    }
}

} // verus!
