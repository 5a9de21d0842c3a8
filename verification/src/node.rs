//! The working node model and its interpretation.
//!
//! The in-memory working copy of the trie is a recursive tree. A `Branch`
//! with an empty `path` is a plain 16-way branch; with a non-empty `path` it
//! is an extended branch that consumes a shared nibble prefix before
//! branching. A branch's 16 child slots use `Empty` for an absent child.
//!
//! The interpretation of a node is the partial map `lookup` from nibble
//! paths to values; every contract of the engine is stated against it.

use vstd::prelude::*;
use crate::nibbles::{is_nibble, nibbles_ok};

verus! {

/// A trie node of the working (not yet hashed) tree.
pub enum Node {
    /// An absent subtree.
    Empty,
    /// A terminal node holding the value for the remaining key path.
    Leaf { path: Vec<u8>, value: Vec<u8> },
    /// A 16-way branch, optionally preceded by a shared nibble prefix
    /// (`path`), optionally valued, with `Empty` for absent children.
    Branch { path: Vec<u8>, value: Option<Vec<u8>>, children: Vec<Node> },
}

/// How many of the child slots are occupied.
pub open spec fn child_count(s: Seq<Node>) -> nat
    decreases s.len(),
{
    if s.len() == 0 {
        0
    } else {
        child_count(s.drop_last()) + if s.last() is Empty { 0nat } else { 1nat }
    }
}

/// Structural well-formedness: paths are nibble sequences, child arrays have
/// 16 slots, and every branch is needed — it carries a value or at least two
/// occupied slots, or both, so no chain of single-child branches survives.
pub open spec fn wf(n: Node) -> bool
    decreases n,
{
    match n {
        Node::Empty => true,
        Node::Leaf { path, value } => nibbles_ok(path@),
        Node::Branch { path, value, children } => {
            &&& nibbles_ok(path@)
            &&& children@.len() == 16
            &&& (forall|i: int| 0 <= i < 16 ==> wf(#[trigger] children@[i]))
            &&& child_count(children@) + (if value is Some { 1nat } else { 0nat }) >= 2
        },
    }
}

/// The view of an optional byte buffer.
pub open spec fn opt_bytes(v: Option<Vec<u8>>) -> Option<Seq<u8>> {
    match v {
        Some(b) => Some(b@),
        None => None,
    }
}

/// The value stored for nibble path `k`, if any.
pub open spec fn lookup(n: Node, k: Seq<u8>) -> Option<Seq<u8>>
    decreases n,
{
    match n {
        Node::Empty => None,
        Node::Leaf { path, value } => if k == path@ {
            Some(value@)
        } else {
            None
        },
        Node::Branch { path, value, children } => if path@.is_prefix_of(k) {
            let rest = k.skip(path@.len() as int);
            if rest.len() == 0 {
                match value {
                    Some(v) => Some(v@),
                    None => None,
                }
            } else if rest[0] < 16 && children@.len() == 16 {
                lookup(children@[rest[0] as int], rest.skip(1))
            } else {
                None
            }
        } else {
            None
        },
    }
}

/// `child_count` of a prefix grows by one exactly at occupied slots.
pub proof fn lemma_child_count_take_succ(s: Seq<Node>, i: int)
    requires
        0 <= i < s.len(),
    ensures
        child_count(s.take(i + 1)) == child_count(s.take(i)) + if s[i] is Empty {
            0nat
        } else {
            1nat
        },
{
    assert(s.take(i + 1).drop_last() =~= s.take(i));
    assert(s.take(i + 1).last() == s[i]);
}

/// A sequence with at least one occupied slot has a positive count.
pub proof fn lemma_child_count_at_least(s: Seq<Node>, i: int)
    requires
        0 <= i < s.len(),
        !(s[i] is Empty),
    ensures
        child_count(s) >= 1,
    decreases s.len(),
{
    if i == s.len() - 1 {
        assert(s.drop_last().len() == s.len() - 1);
    } else {
        lemma_child_count_at_least(s.drop_last(), i);
    }
}

/// Updating one slot changes the count by the difference of that slot.
pub proof fn lemma_child_count_update(s: Seq<Node>, x: int, nd: Node)
    requires
        0 <= x < s.len(),
    ensures
        child_count(s.update(x, nd)) + (if s[x] is Empty {
            0nat
        } else {
            1nat
        }) == child_count(s) + (if nd is Empty {
            0nat
        } else {
            1nat
        }),
    decreases s.len(),
{
    let t = s.update(x, nd);
    if x == s.len() - 1 {
        assert(t.drop_last() =~= s.drop_last());
        assert(t.last() == nd);
        assert(s.last() == s[x]);
    } else {
        assert(t.drop_last() =~= s.drop_last().update(x, nd));
        assert(t.last() == s.last());
        lemma_child_count_update(s.drop_last(), x, nd);
    }
}

/// Two occupied slots make the count at least two.
pub proof fn lemma_child_count_pair(s: Seq<Node>, a: int, b: int)
    requires
        0 <= a < b < s.len(),
        !(s[a] is Empty),
        !(s[b] is Empty),
    ensures
        child_count(s) >= 2,
    decreases s.len(),
{
    if b == s.len() - 1 {
        lemma_child_count_at_least(s.drop_last(), a);
    } else {
        lemma_child_count_pair(s.drop_last(), a, b);
    }
}

/// A sequence of empty slots has count zero.
pub proof fn lemma_child_count_empty(s: Seq<Node>)
    requires
        forall|i: int| 0 <= i < s.len() ==> (#[trigger] s[i]) is Empty,
    ensures
        child_count(s) == 0,
    decreases s.len(),
{
    if s.len() > 0 {
        lemma_child_count_empty(s.drop_last());
    }
}

/// A positive count names an occupied slot.
pub proof fn lemma_count_pos_exists(s: Seq<Node>)
    requires
        child_count(s) > 0,
    ensures
        exists|y: int| 0 <= y < s.len() && !((#[trigger] s[y]) is Empty),
    decreases s.len(),
{
    if s.last() is Empty {
        lemma_count_pos_exists(s.drop_last());
        let y = choose|y: int| 0 <= y < s.drop_last().len() && !((#[trigger] s.drop_last()[y]) is Empty);
        assert(s[y] == s.drop_last()[y]);
    } else {
        assert(!(s[s.len() - 1] is Empty));
    }
}

/// A well-formed node other than `Empty` stores at least one binding.
pub proof fn lemma_nonempty_has_key(n: Node)
    requires
        wf(n),
        !(n is Empty),
    ensures
        exists|j: Seq<u8>| (#[trigger] lookup(n, j)) is Some,
    decreases n,
{
    match n {
        Node::Empty => {},
        Node::Leaf { path, value } => {
            assert(lookup(n, path@) is Some);
        },
        Node::Branch { path, value, children } => {
            if value is Some {
                assert(path@.is_prefix_of(path@)) by {
                    assert(path@ =~= path@.subrange(0, path@.len() as int));
                }
                assert(path@.skip(path@.len() as int).len() == 0);
                assert(lookup(n, path@) is Some);
            } else {
                lemma_count_pos_exists(children@);
                let y = choose|y: int| 0 <= y < 16 && !((#[trigger] children@[y]) is Empty);
                assert(wf(children@[y]));
                lemma_nonempty_has_key(children@[y]);
                let jc = choose|jc: Seq<u8>| (#[trigger] lookup(children@[y], jc)) is Some;
                let j = path@ + seq![y as u8] + jc;
                assert(path@.is_prefix_of(j)) by {
                    assert(path@ =~= j.subrange(0, path@.len() as int));
                }
                let rest = j.skip(path@.len() as int);
                assert(rest.len() > 0);
                assert(rest[0] == y as u8);
                assert(rest.skip(1) =~= jc);
                assert(lookup(n, j) == lookup(children@[y], jc));
                assert(lookup(n, j) is Some);
            }
        },
    }
}

/// A count of at least two names two distinct occupied slots.
pub proof fn lemma_count_two_exists(s: Seq<Node>)
    requires
        child_count(s) >= 2,
    ensures
        exists|x: int, y: int|
            0 <= x < y < s.len() && !((#[trigger] s[x]) is Empty) && !((#[trigger] s[y]) is Empty),
    decreases s.len(),
{
    if s.last() is Empty {
        lemma_count_two_exists(s.drop_last());
        let (x, y) = choose|x: int, y: int|
            0 <= x < y < s.drop_last().len() && !((#[trigger] s.drop_last()[x]) is Empty) && !((
            #[trigger] s.drop_last()[y]) is Empty);
        assert(s[x] == s.drop_last()[x]);
        assert(s[y] == s.drop_last()[y]);
    } else {
        lemma_count_pos_exists(s.drop_last());
        let x = choose|x: int| 0 <= x < s.drop_last().len() && !((#[trigger] s.drop_last()[x]) is Empty);
        assert(s[x] == s.drop_last()[x]);
        assert(!(s[s.len() - 1] is Empty));
    }
}

/// A stored key runs through the branch's own nibble path.
pub proof fn lemma_branch_key_prefix(n: Node, j: Seq<u8>)
    requires
        n is Branch,
        lookup(n, j) is Some,
    ensures
        n->Branch_path@.is_prefix_of(j),
{
}

/// Consuming a branch's path and one selecting nibble reaches the child.
pub proof fn lemma_branch_child_lookup(n: Node, x: u8, j: Seq<u8>)
    requires
        n is Branch,
        n->Branch_children@.len() == 16,
        x < 16,
    ensures
        lookup(n, n->Branch_path@ + seq![x] + j) == lookup(n->Branch_children@[x as int], j),
{
    let p = n->Branch_path@;
    let full = p + seq![x] + j;
    assert(p.is_prefix_of(full)) by {
        assert(p =~= full.subrange(0, p.len() as int));
    }
    let rest = full.skip(p.len() as int);
    assert(rest.len() > 0);
    assert(rest[0] == x);
    assert(rest.skip(1) =~= j);
}

/// A well-formed branch stores at least two distinct keys.
pub proof fn lemma_branch_two_keys(n: Node)
    requires
        wf(n),
        n is Branch,
    ensures
        exists|j1: Seq<u8>, j2: Seq<u8>|
            j1 != j2 && (#[trigger] lookup(n, j1)) is Some && (#[trigger] lookup(n, j2)) is Some,
{
    let p = n->Branch_path@;
    let ch = n->Branch_children@;
    match n {
        Node::Branch { path, value, children } => {
            if value is Some {
                assert(p.is_prefix_of(p)) by {
                    assert(p =~= p.subrange(0, p.len() as int));
                }
                assert(p.skip(p.len() as int).len() == 0);
                assert(lookup(n, p) is Some);
                lemma_count_pos_exists(ch);
                let x = choose|x: int| 0 <= x < 16 && !((#[trigger] ch[x]) is Empty);
                assert(wf(ch[x]));
                lemma_nonempty_has_key(ch[x]);
                let jc = choose|jc: Seq<u8>| (#[trigger] lookup(ch[x], jc)) is Some;
                lemma_branch_child_lookup(n, x as u8, jc);
                let j2 = p + seq![x as u8] + jc;
                assert(lookup(n, j2) is Some);
                assert(j2.len() > p.len());
                assert(j2 != p);
            } else {
                lemma_count_two_exists(ch);
                let (x, y) = choose|x: int, y: int|
                    0 <= x < y < 16 && !((#[trigger] ch[x]) is Empty) && !((
                    #[trigger] ch[y]) is Empty);
                assert(wf(ch[x]) && wf(ch[y]));
                lemma_nonempty_has_key(ch[x]);
                lemma_nonempty_has_key(ch[y]);
                let jx = choose|jc: Seq<u8>| (#[trigger] lookup(ch[x], jc)) is Some;
                let jy = choose|jc: Seq<u8>| (#[trigger] lookup(ch[y], jc)) is Some;
                lemma_branch_child_lookup(n, x as u8, jx);
                lemma_branch_child_lookup(n, y as u8, jy);
                let j1 = p + seq![x as u8] + jx;
                let j2 = p + seq![y as u8] + jy;
                assert(lookup(n, j1) is Some);
                assert(lookup(n, j2) is Some);
                assert(j1[p.len() as int] == x as u8);
                assert(j2[p.len() as int] == y as u8);
                assert(j1 != j2);
            }
        },
        _ => {},
    }
}

/// A sequence equals `t` exactly when it carries `t`'s prefix up to `c`,
/// `t`'s nibble at `c`, and `t`'s tail after `c`.
pub proof fn lemma_eq_via_split(j: Seq<u8>, t: Seq<u8>, c: int)
    requires
        0 <= c < t.len(),
    ensures
        (j == t) <==> (t.take(c).is_prefix_of(j) && c < j.len() && j[c] == t[c] && j.skip(c + 1)
            == t.skip(c + 1)),
{
    if t.take(c).is_prefix_of(j) && c < j.len() && j[c] == t[c] && j.skip(c + 1) == t.skip(c + 1) {
        assert(j.skip(c + 1).len() == t.skip(c + 1).len());
        assert forall|m: int| 0 <= m < t.len() implies j[m] == t[m] by {
            if m < c {
                assert(t.take(c) == j.subrange(0, c));
                assert(t.take(c)[m] == t[m]);
                assert(j.subrange(0, c)[m] == j[m]);
            } else if m > c {
                assert(j.skip(c + 1)[m - c - 1] == j[m]);
                assert(t.skip(c + 1)[m - c - 1] == t[m]);
            }
        }
        assert(j =~= t);
    }
    if j == t {
        assert(t.take(c) =~= j.subrange(0, c));
        assert(t.take(c).is_prefix_of(j));
        assert(j.skip(c + 1) == t.skip(c + 1));
    }
}

/// Looking up through a node whose path is `pre + [x] + q` is the same as
/// first consuming `pre` and `x`, then looking up through the same node
/// with path `q`.
pub proof fn lemma_path_graft(big: Node, small: Node, pre: Seq<u8>, x: u8, j: Seq<u8>)
    requires
        match (big, small) {
            (Node::Leaf { path: bp, value: bv }, Node::Leaf { path: sp, value: sv }) => bp@ == pre
                + seq![x] + sp@ && bv@ == sv@,
            (
                Node::Branch { path: bp, value: bval, children: bch },
                Node::Branch { path: sp, value: sval, children: sch },
            ) => bp@ == pre + seq![x] + sp@ && opt_bytes(bval) == opt_bytes(sval) && bch@ == sch@,
            _ => false,
        },
    ensures
        lookup(big, j) == (if pre.is_prefix_of(j) && pre.len() < j.len() && j[pre.len() as int]
            == x {
            lookup(small, j.skip(pre.len() as int + 1))
        } else {
            None::<Seq<u8>>
        }),
{
    let plen = pre.len() as int;
    let cond = pre.is_prefix_of(j) && pre.len() < j.len() && j[plen] == x;
    let jt = j.skip(plen + 1);
    match (big, small) {
        (Node::Leaf { path: bp, value: bv }, Node::Leaf { path: sp, value: sv }) => {
            assert(bp@.take(plen) =~= pre);
            assert(bp@[plen] == x);
            assert(bp@.skip(plen + 1) =~= sp@);
            lemma_eq_via_split(j, bp@, plen);
            if cond {
                assert(pre =~= bp@.take(plen).subrange(0, plen));
                if jt == sp@ {
                    assert(j == bp@) by {
                        assert(bp@.take(plen).is_prefix_of(j)) by {
                            assert(bp@.take(plen) =~= j.subrange(0, plen));
                        }
                    }
                } else {
                    assert(j != bp@);
                }
            } else {
                if j == bp@ {
                    assert(bp@.take(plen).is_prefix_of(j));
                    assert(pre.is_prefix_of(j)) by {
                        assert(pre =~= j.subrange(0, plen));
                    }
                    assert(false);
                }
            }
        },
        (
            Node::Branch { path: bp, value: bval, children: bch },
            Node::Branch { path: sp, value: sval, children: sch },
        ) => {
            let blen = bp@.len() as int;
            let slen = sp@.len() as int;
            assert(blen == plen + 1 + slen);
            assert(bp@.take(plen) =~= pre);
            assert(bp@[plen] == x);
            assert(bp@.skip(plen + 1) =~= sp@);
            // bp <= j  <==>  cond && sp <= jt, and then the rests agree
            if bp@.is_prefix_of(j) {
                assert(bp@ == j.subrange(0, blen));
                assert(pre.is_prefix_of(j)) by {
                    assert(pre =~= j.subrange(0, plen));
                }
                assert(j[plen] == bp@[plen]);
                assert(sp@.is_prefix_of(jt)) by {
                    assert(sp@ =~= jt.subrange(0, slen));
                }
                assert(j.skip(blen) =~= jt.skip(slen));
                assert(lookup(big, j) == lookup(small, jt));
            } else {
                if cond {
                    if sp@.is_prefix_of(jt) {
                        assert(sp@ == jt.subrange(0, slen));
                        assert(bp@.is_prefix_of(j)) by {
                            assert(bp@ =~= j.subrange(0, blen));
                        }
                        assert(false);
                    }
                    assert(lookup(small, jt) == None::<Seq<u8>>);
                }
                assert(lookup(big, j) == None::<Seq<u8>>);
            }
        },
        _ => {},
    }
}

} // verus!
