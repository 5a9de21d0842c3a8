//! The mutation and query walks of the trie engine.
//!
//! `get_at`, `insert_at` and `remove_at` each walk a node against the
//! suffix of a nibble key starting at index `i`. Their contracts are
//! pointwise over `lookup`: every nibble path except the one walked keeps
//! its binding.

use vstd::prelude::*;
use crate::nibbles::{is_nibble, nibbles_ok};
use crate::node::{
    child_count, lemma_child_count_at_least, lemma_child_count_empty, lemma_child_count_pair,
    lemma_child_count_take_succ, lemma_child_count_update, lemma_eq_via_split, lemma_path_graft,
    lookup, opt_bytes, wf, Node,
};

verus! {

/// Byte-for-byte copy.
pub fn clone_bytes(v: &Vec<u8>) -> (r: Vec<u8>)
    ensures
        r@ == v@,
{
    let mut out: Vec<u8> = Vec::new();
    let mut i: usize = 0;
    while i < v.len()
        invariant
            i <= v@.len(),
            out@ == v@.take(i as int),
        decreases v@.len() - i,
    {
        out.push(v[i]);
        proof {
            assert(v@.take(i + 1) =~= v@.take(i as int).push(v@[i as int]));
        }
        i = i + 1;
    }
    proof {
        assert(v@.take(v@.len() as int) =~= v@);
    }
    out
}

/// The suffix of `k` from index `i`, as a fresh vector.
pub fn suffix_from(k: &Vec<u8>, i: usize) -> (r: Vec<u8>)
    requires
        i <= k@.len(),
    ensures
        r@ == k@.skip(i as int),
{
    let mut out: Vec<u8> = Vec::new();
    let mut j: usize = i;
    while j < k.len()
        invariant
            i <= j <= k@.len(),
            out@ == k@.subrange(i as int, j as int),
        decreases k@.len() - j,
    {
        out.push(k[j]);
        proof {
            assert(k@.subrange(i as int, j + 1) =~= k@.subrange(i as int, j as int).push(
                k@[j as int],
            ));
        }
        j = j + 1;
    }
    proof {
        assert(k@.subrange(i as int, k@.len() as int) =~= k@.skip(i as int));
    }
    out
}

/// The subrange `p[a..b]`, as a fresh vector.
pub fn subpath(p: &Vec<u8>, a: usize, b: usize) -> (r: Vec<u8>)
    requires
        a <= b <= p@.len(),
    ensures
        r@ == p@.subrange(a as int, b as int),
{
    let mut out: Vec<u8> = Vec::new();
    let mut j: usize = a;
    while j < b
        invariant
            a <= j <= b <= p@.len(),
            out@ == p@.subrange(a as int, j as int),
        decreases b - j,
    {
        out.push(p[j]);
        proof {
            assert(p@.subrange(a as int, j + 1) =~= p@.subrange(a as int, j as int).push(
                p@[j as int],
            ));
        }
        j = j + 1;
    }
    out
}

/// The length of the longest common run of `p` and `k[i..]`.
pub fn common_len(p: &Vec<u8>, k: &Vec<u8>, i: usize) -> (c: usize)
    requires
        i <= k@.len(),
    ensures
        c <= p@.len(),
        i + c <= k@.len(),
        forall|m: int| 0 <= m < c ==> p@[m] == k@[i + m],
        c < p@.len() && i + c < k@.len() ==> p@[c as int] != k@[i + c],
{
    let klen = k.len();
    let mut c: usize = 0;
    while c < p.len() && i + c < klen && p[c] == k[i + c]
        invariant
            klen == k@.len(),
            i <= k@.len(),
            c <= p@.len(),
            i + c <= k@.len(),
            forall|m: int| 0 <= m < c ==> p@[m] == k@[i + m],
        decreases p@.len() - c,
    {
        c = c + 1;
    }
    c
}

/// `p` is a prefix of `k[i..]` exactly when the common run spans `p`.
proof fn lemma_prefix_from_common(p: Seq<u8>, k: Seq<u8>, i: int, c: int)
    requires
        0 <= i <= k.len(),
        0 <= c <= p.len(),
        i + c <= k.len(),
        forall|m: int| 0 <= m < c ==> p[m] == k[i + m],
        c < p.len() && i + c < k.len() ==> p[c] != k[i + c],
    ensures
        p.is_prefix_of(k.skip(i)) <==> (c == p.len() && i + p.len() <= k.len()),
{
    let s = k.skip(i);
    if c == p.len() && i + p.len() <= k.len() {
        assert(p =~= s.take(p.len() as int));
        assert(p.is_prefix_of(s));
    } else {
        if p.is_prefix_of(s) {
            assert(p =~= s.take(p.len() as int));
            if c < p.len() && i + c < k.len() {
                assert(p[c] == s[c]);
                assert(s[c] == k[i + c]);
            } else {
                assert(i + c == k.len() && c < p.len());
                assert(s.len() < p.len());
            }
        }
    }
}

/// Walks `n` against `k[i..]` and returns the stored value, if any.
pub fn get_at(n: &Node, k: &Vec<u8>, i: usize) -> (r: Option<Vec<u8>>)
    requires
        wf(*n),
        i <= k@.len(),
    ensures
        opt_bytes(r) == lookup(*n, k@.skip(i as int)),
    decreases k@.len() - i,
{
    let ghost s = k@.skip(i as int);
    let klen = k.len();
    match n {
        Node::Empty => None,
        Node::Leaf { path, value } => {
            let c = common_len(path, k, i);
            proof {
                lemma_prefix_from_common(path@, k@, i as int, c as int);
            }
            if c == path.len() && i + c == klen {
                proof {
                    assert(path@ =~= s);
                }
                Some(clone_bytes(value))
            } else {
                proof {
                    if s == path@ {
                        assert(path@.is_prefix_of(s));
                        assert(s.len() == path@.len());
                    }
                }
                None
            }
        },
        Node::Branch { path, value, children } => {
            let c = common_len(path, k, i);
            proof {
                lemma_prefix_from_common(path@, k@, i as int, c as int);
            }
            if c < path.len() {
                None
            } else {
                // path is a prefix of the remaining key
                let ghost rest = s.skip(path@.len() as int);
                if i + c == klen {
                    proof {
                        assert(rest.len() == 0);
                    }
                    match value {
                        Some(v) => Some(clone_bytes(v)),
                        None => None,
                    }
                } else {
                    let x = k[i + c];
                    proof {
                        assert(rest[0] == k@[i + c]);
                    }
                    if x < 16 {
                        let r = get_at(&children[x as usize], k, i + c + 1);
                        proof {
                            assert(k@.skip(i + c + 1) =~= rest.skip(1));
                        }
                        r
                    } else {
                        None
                    }
                }
            }
        },
    }
}

/// Sixteen empty child slots.
pub fn empty_children() -> (r: Vec<Node>)
    ensures
        r@.len() == 16,
        forall|i: int| 0 <= i < 16 ==> (#[trigger] r@[i]) is Empty,
        child_count(r@) == 0,
{
    let mut out: Vec<Node> = Vec::new();
    let mut i: usize = 0;
    while i < 16
        invariant
            i <= 16,
            out@.len() == i,
            forall|m: int| 0 <= m < i ==> (#[trigger] out@[m]) is Empty,
        decreases 16 - i,
    {
        out.push(Node::Empty);
        i = i + 1;
    }
    proof {
        lemma_child_count_empty(out@);
    }
    out
}

/// Replaces the child at slot `x`.
pub fn set_child(ch: &mut Vec<Node>, x: usize, nd: Node)
    requires
        x < old(ch)@.len(),
    ensures
        final(ch)@ == old(ch)@.update(x as int, nd),
{
    let _ = ch.remove(x);
    ch.insert(x, nd);
    proof {
        assert(ch@ =~= old(ch)@.update(x as int, nd));
    }
}

/// Takes the child at slot `x`, leaving `Empty` behind.
pub fn take_child(ch: &mut Vec<Node>, x: usize) -> (r: Node)
    requires
        x < old(ch)@.len(),
    ensures
        r == old(ch)@[x as int],
        final(ch)@ == old(ch)@.update(x as int, Node::Empty),
{
    let r = ch.remove(x);
    ch.insert(x, Node::Empty);
    proof {
        assert(ch@ =~= old(ch)@.update(x as int, Node::Empty));
    }
    r
}

/// Binds `value` to the nibble path `k[i..]` in `n`, reshaping the minimal
/// set of nodes around the first divergence. Every other path keeps its
/// binding, and the result is never `Empty`.
#[verifier::rlimit(80)]
pub fn insert_at(n: Node, k: &Vec<u8>, i: usize, v: &Vec<u8>) -> (r: Node)
    requires
        wf(n),
        nibbles_ok(k@),
        i <= k@.len(),
    ensures
        wf(r),
        !(r is Empty),
        forall|j: Seq<u8>| #[trigger] lookup(r, j) == (if j == k@.skip(i as int) {
            Some(v@)
        } else {
            lookup(n, j)
        }),
    decreases k@.len() - i,
{
    let ghost s = k@.skip(i as int);
    let klen = k.len();
    proof {
        crate::nibbles::lemma_nibbles_skip(k@, i as int);
    }
    match n {
        Node::Empty => {
            let r = Node::Leaf { path: suffix_from(k, i), value: clone_bytes(v) };
            r
        },
        Node::Leaf { path, value } => {
            let c = common_len(&path, k, i);
            proof {
                lemma_prefix_from_common(path@, k@, i as int, c as int);
            }
            if c == path.len() && i + c == klen {
                // exact match: overwrite in place
                proof {
                    assert(path@ =~= s);
                }
                Node::Leaf { path, value: clone_bytes(v) }
            } else if c == path.len() {
                // the leaf path is a strict prefix of the key: the leaf value
                // moves onto a branch, the new entry becomes its child
                let x_new = k[i + c];
                proof {
                    assert(is_nibble(k@[i + c]));
                }
                let tail = suffix_from(k, i + c + 1);
                let mut ch = empty_children();
                let ghost ch0 = ch@;
                let new_leaf = Node::Leaf { path: tail, value: clone_bytes(v) };
                set_child(&mut ch, x_new as usize, new_leaf);
                let r = Node::Branch { path, value: Some(value), children: ch };
                proof {
                    crate::nibbles::lemma_nibbles_skip(k@, i + c + 1);
                    assert(tail@ =~= k@.skip(i + c + 1));
                    assert(wf(new_leaf));
                    lemma_child_count_update(ch0, x_new as int, new_leaf);
                    assert(child_count(ch@) == 1);
                    assert forall|m: int| 0 <= m < 16 implies wf(#[trigger] ch@[m]) by {
                        if m != x_new as int {
                            assert(ch@[m] is Empty);
                        }
                    }
                    assert(wf(r));
                    assert(path@ =~= s.take(c as int));
                    assert(s[c as int] == x_new);
                    assert(s.skip(c as int + 1) =~= tail@);
                    assert forall|j: Seq<u8>| #[trigger] lookup(r, j) == (if j == s {
                        Some(v@)
                    } else {
                        lookup(n, j)
                    }) by {
                        lemma_eq_via_split(j, s, c as int);
                        if path@.is_prefix_of(j) {
                            let rest = j.skip(c as int);
                            if rest.len() == 0 {
                                assert(j =~= path@);
                                assert(j != s);
                                assert(lookup(r, j) == lookup(n, j));
                            } else {
                                assert(rest[0] == j[c as int]);
                                assert(j != path@);
                                assert(lookup(n, j) is None);
                                assert(rest.skip(1) =~= j.skip(c as int + 1));
                                if rest[0] == x_new {
                                    assert(lookup(r, j) == lookup(new_leaf, rest.skip(1)));
                                    if j == s {
                                        assert(rest.skip(1) == tail@);
                                        assert(lookup(new_leaf, rest.skip(1)) == Some(v@));
                                    } else {
                                        assert(rest.skip(1) != tail@);
                                        assert(lookup(new_leaf, rest.skip(1)) is None);
                                    }
                                } else if rest[0] < 16 {
                                    assert(ch@[rest[0] as int] is Empty);
                                    assert(lookup(r, j) == lookup(ch@[rest[0] as int], rest.skip(1)));
                                    assert(lookup(r, j) is None);
                                    assert(j != s);
                                } else {
                                    assert(lookup(r, j) is None);
                                    assert(j != s);
                                }
                            }
                        } else {
                            assert(j != s) by {
                                if j == s {
                                    assert(path@.is_prefix_of(j)) by {
                                        assert(path@ =~= j.subrange(0, path@.len() as int));
                                    }
                                }
                            }
                            assert(j != path@) by {
                                if j == path@ {
                                    assert(path@.is_prefix_of(j)) by {
                                        assert(path@ =~= j.subrange(0, path@.len() as int));
                                    }
                                }
                            }
                        }
                    }
                }
                r
            } else if i + c == klen {
                // the key is a strict prefix of the leaf path: the new value
                // sits on a branch, the old leaf becomes its child
                let x_old = path[c];
                proof {
                    assert(is_nibble(path@[c as int]));
                }
                let pre = subpath(&path, 0, c);
                let tail = subpath(&path, c + 1, path.len());
                let mut ch = empty_children();
                let ghost ch0 = ch@;
                let old_leaf = Node::Leaf { path: tail, value };
                set_child(&mut ch, x_old as usize, old_leaf);
                let r = Node::Branch { path: pre, value: Some(clone_bytes(v)), children: ch };
                proof {
                    crate::nibbles::lemma_nibbles_subrange(path@, c as int + 1, path@.len() as int);
                    crate::nibbles::lemma_nibbles_subrange(path@, 0, c as int);
                    assert(wf(old_leaf));
                    lemma_child_count_update(ch0, x_old as int, old_leaf);
                    assert(child_count(ch@) == 1);
                    assert forall|m: int| 0 <= m < 16 implies wf(#[trigger] ch@[m]) by {
                        if m != x_old as int {
                            assert(ch@[m] is Empty);
                        }
                    }
                    assert(wf(r));
                    assert(pre@ =~= s);
                    assert(path@ =~= pre@ + seq![x_old] + tail@);
                    assert forall|j: Seq<u8>| #[trigger] lookup(r, j) == (if j == s {
                        Some(v@)
                    } else {
                        lookup(n, j)
                    }) by {
                        lemma_path_graft(n, old_leaf, pre@, x_old, j);
                        if pre@.is_prefix_of(j) {
                            let rest = j.skip(c as int);
                            if rest.len() == 0 {
                                assert(j =~= pre@);
                                assert(!(pre@.len() < j.len()));
                            } else {
                                assert(rest[0] == j[c as int]);
                                assert(j != s);
                                assert(rest.skip(1) =~= j.skip(c as int + 1));
                                if rest[0] == x_old {
                                    assert(lookup(r, j) == lookup(old_leaf, rest.skip(1)));
                                } else if rest[0] < 16 {
                                    assert(ch@[rest[0] as int] is Empty);
                                    assert(lookup(r, j) == lookup(ch@[rest[0] as int], rest.skip(1)));
                                } else {
                                    assert(lookup(r, j) is None);
                                }
                            }
                        } else {
                            assert(j != s) by {
                                if j == s {
                                    assert(pre@.is_prefix_of(j)) by {
                                        assert(pre@ =~= j.subrange(0, pre@.len() as int));
                                    }
                                }
                            }
                        }
                    }
                }
                r
            } else {
                // genuine divergence: a two-child branch at the fork
                let x_old = path[c];
                let x_new = k[i + c];
                proof {
                    assert(is_nibble(path@[c as int]));
                    assert(is_nibble(k@[i + c]));
                }
                let pre = subpath(&path, 0, c);
                let old_tail = subpath(&path, c + 1, path.len());
                let new_tail = suffix_from(k, i + c + 1);
                let mut ch = empty_children();
                let ghost ch0 = ch@;
                let old_leaf = Node::Leaf { path: old_tail, value };
                let new_leaf = Node::Leaf { path: new_tail, value: clone_bytes(v) };
                set_child(&mut ch, x_old as usize, old_leaf);
                let ghost ch1 = ch@;
                set_child(&mut ch, x_new as usize, new_leaf);
                let r = Node::Branch { path: pre, value: None, children: ch };
                proof {
                    assert(x_old != x_new);
                    crate::nibbles::lemma_nibbles_subrange(path@, c as int + 1, path@.len() as int);
                    crate::nibbles::lemma_nibbles_subrange(path@, 0, c as int);
                    crate::nibbles::lemma_nibbles_skip(k@, i + c + 1);
                    assert(new_tail@ =~= k@.skip(i + c + 1));
                    assert(wf(old_leaf));
                    assert(wf(new_leaf));
                    lemma_child_count_update(ch0, x_old as int, old_leaf);
                    lemma_child_count_update(ch1, x_new as int, new_leaf);
                    assert(child_count(ch@) == 2);
                    assert forall|m: int| 0 <= m < 16 implies wf(#[trigger] ch@[m]) by {
                        if m != x_old as int && m != x_new as int {
                            assert(ch@[m] is Empty);
                        }
                    }
                    assert(wf(r));
                    assert(pre@ =~= s.take(c as int));
                    assert(s[c as int] == x_new);
                    assert(s.skip(c as int + 1) =~= new_tail@);
                    assert(path@ =~= pre@ + seq![x_old] + old_tail@);
                    assert forall|j: Seq<u8>| #[trigger] lookup(r, j) == (if j == s {
                        Some(v@)
                    } else {
                        lookup(n, j)
                    }) by {
                        lemma_path_graft(n, old_leaf, pre@, x_old, j);
                        lemma_eq_via_split(j, s, c as int);
                        if pre@.is_prefix_of(j) {
                            let rest = j.skip(c as int);
                            if rest.len() == 0 {
                                assert(j != s);
                                assert(!(pre@.len() < j.len()));
                            } else {
                                assert(rest[0] == j[c as int]);
                                assert(rest.skip(1) =~= j.skip(c as int + 1));
                                if rest[0] == x_old {
                                    assert(lookup(r, j) == lookup(old_leaf, rest.skip(1)));
                                    assert(j != s);
                                } else if rest[0] == x_new {
                                    assert(lookup(r, j) == lookup(new_leaf, rest.skip(1)));
                                } else if rest[0] < 16 {
                                    assert(ch@[rest[0] as int] is Empty);
                                    assert(lookup(r, j) == lookup(ch@[rest[0] as int], rest.skip(1)));
                                    assert(j != s);
                                } else {
                                    assert(j != s);
                                }
                            }
                        } else {
                            assert(j != s) by {
                                if j == s {
                                    assert(pre@.is_prefix_of(j)) by {
                                        assert(pre@ =~= j.subrange(0, pre@.len() as int));
                                    }
                                }
                            }
                        }
                    }
                }
                r
            }
        },
        Node::Branch { path, value, mut children } => {
            let ghost n0 = Node::Branch { path: path, value: value, children: children };
            proof {
                assert(n == n0);
                assert(wf(n0));
            }
            let c = common_len(&path, k, i);
            proof {
                lemma_prefix_from_common(path@, k@, i as int, c as int);
            }
            if c == path.len() && i + c == klen {
                // the key terminates exactly here: set the branch value
                proof {
                    assert(path@ =~= s);
                }
                let r = Node::Branch { path, value: Some(clone_bytes(v)), children };
                proof {
                    assert(wf(r));
                    assert forall|j: Seq<u8>| #[trigger] lookup(r, j) == (if j == s {
                        Some(v@)
                    } else {
                        lookup(n0, j)
                    }) by {
                        if path@.is_prefix_of(j) {
                            let rest = j.skip(path@.len() as int);
                            if rest.len() == 0 {
                                assert(j =~= s);
                            } else {
                                assert(j != s);
                            }
                        } else {
                            assert(j != s) by {
                                if j == s {
                                    assert(path@.is_prefix_of(j)) by {
                                        assert(path@ =~= j.subrange(0, path@.len() as int));
                                    }
                                }
                            }
                        }
                    }
                }
                r
            } else if c == path.len() {
                // descend into the child selected by the next nibble
                let x = k[i + c];
                proof {
                    assert(is_nibble(k@[i + c]));
                    assert(wf(children@[x as int]));
                }
                let ghost ch_old = children@;
                let child = take_child(&mut children, x as usize);
                let child2 = insert_at(child, k, i + c + 1, v);
                set_child(&mut children, x as usize, child2);
                let r = Node::Branch { path, value, children };
                proof {
                    assert(children@ =~= ch_old.update(x as int, child2));
                    lemma_child_count_update(ch_old, x as int, child2);
                    assert(child_count(children@) >= child_count(ch_old));
                    assert forall|m: int| 0 <= m < 16 implies wf(#[trigger] children@[m]) by {
                        if m != x as int {
                            assert(children@[m] == ch_old[m]);
                        }
                    }
                    assert(wf(r));
                    assert(path@ =~= s.take(c as int));
                    assert(s[c as int] == x);
                    assert(s.skip(c as int + 1) =~= k@.skip(i + c + 1));
                    assert forall|j: Seq<u8>| #[trigger] lookup(r, j) == (if j == s {
                        Some(v@)
                    } else {
                        lookup(n0, j)
                    }) by {
                        lemma_eq_via_split(j, s, c as int);
                        if path@.is_prefix_of(j) {
                            let rest = j.skip(c as int);
                            if rest.len() == 0 {
                                assert(j != s);
                            } else {
                                assert(rest[0] == j[c as int]);
                                assert(rest.skip(1) =~= j.skip(c as int + 1));
                                if rest[0] == x {
                                    assert(lookup(r, j) == lookup(child2, rest.skip(1)));
                                    assert(lookup(n0, j) == lookup(ch_old[x as int], rest.skip(1)));
                                } else if rest[0] < 16 {
                                    assert(children@[rest[0] as int] == ch_old[rest[0] as int]);
                                    assert(j != s);
                                } else {
                                    assert(j != s);
                                }
                            }
                        } else {
                            assert(j != s) by {
                                if j == s {
                                    assert(path@.is_prefix_of(j)) by {
                                        assert(path@ =~= j.subrange(0, path@.len() as int));
                                    }
                                }
                            }
                        }
                    }
                }
                r
            } else {
                // the key diverges inside this branch's own path: split it
                let x_old = path[c];
                proof {
                    assert(is_nibble(path@[c as int]));
                }
                let pre = subpath(&path, 0, c);
                let tail = subpath(&path, c + 1, path.len());
                let demoted = Node::Branch { path: tail, value, children };
                let mut ch = empty_children();
                let ghost ch0 = ch@;
                proof {
                    crate::nibbles::lemma_nibbles_subrange(path@, c as int + 1, path@.len() as int);
                    crate::nibbles::lemma_nibbles_subrange(path@, 0, c as int);
                    assert(wf(demoted));
                    assert(path@ =~= pre@ + seq![x_old] + tail@);
                }
                if i + c == klen {
                    set_child(&mut ch, x_old as usize, demoted);
                    let r = Node::Branch { path: pre, value: Some(clone_bytes(v)), children: ch };
                    proof {
                        lemma_child_count_update(ch0, x_old as int, demoted);
                        assert(child_count(ch@) == 1);
                        assert forall|m: int| 0 <= m < 16 implies wf(#[trigger] ch@[m]) by {
                            if m != x_old as int {
                                assert(ch@[m] is Empty);
                            }
                        }
                        assert(wf(r));
                        assert(pre@ =~= s);
                        assert forall|j: Seq<u8>| #[trigger] lookup(r, j) == (if j == s {
                            Some(v@)
                        } else {
                            lookup(n0, j)
                        }) by {
                            lemma_path_graft(n0, demoted, pre@, x_old, j);
                            if pre@.is_prefix_of(j) {
                                let rest = j.skip(c as int);
                                if rest.len() == 0 {
                                    assert(j =~= pre@);
                                    assert(!(pre@.len() < j.len()));
                                } else {
                                    assert(rest[0] == j[c as int]);
                                    assert(j != s);
                                    assert(rest.skip(1) =~= j.skip(c as int + 1));
                                    if rest[0] == x_old {
                                        assert(lookup(r, j) == lookup(demoted, rest.skip(1)));
                                    } else if rest[0] < 16 {
                                        assert(ch@[rest[0] as int] is Empty);
                                    assert(lookup(r, j) == lookup(ch@[rest[0] as int], rest.skip(1)));
                                    } else {
                                        assert(lookup(r, j) is None);
                                    }
                                }
                            } else {
                                assert(j != s) by {
                                    if j == s {
                                        assert(pre@.is_prefix_of(j)) by {
                                            assert(pre@ =~= j.subrange(0, pre@.len() as int));
                                        }
                                    }
                                }
                            }
                        }
                    }
                    r
                } else {
                    let x_new = k[i + c];
                    proof {
                        assert(is_nibble(k@[i + c]));
                    }
                    let new_tail = suffix_from(k, i + c + 1);
                    let new_leaf = Node::Leaf { path: new_tail, value: clone_bytes(v) };
                    set_child(&mut ch, x_old as usize, demoted);
                    let ghost ch1 = ch@;
                    set_child(&mut ch, x_new as usize, new_leaf);
                    let r = Node::Branch { path: pre, value: None, children: ch };
                    proof {
                        assert(x_old != x_new);
                        crate::nibbles::lemma_nibbles_skip(k@, i + c + 1);
                        assert(new_tail@ =~= k@.skip(i + c + 1));
                        assert(wf(new_leaf));
                        lemma_child_count_update(ch0, x_old as int, demoted);
                        lemma_child_count_update(ch1, x_new as int, new_leaf);
                        assert(child_count(ch@) == 2);
                        assert forall|m: int| 0 <= m < 16 implies wf(#[trigger] ch@[m]) by {
                            if m != x_old as int && m != x_new as int {
                                assert(ch@[m] is Empty);
                            }
                        }
                        assert(wf(r));
                        assert(pre@ =~= s.take(c as int));
                        assert(s[c as int] == x_new);
                        assert(s.skip(c as int + 1) =~= new_tail@);
                        assert forall|j: Seq<u8>| #[trigger] lookup(r, j) == (if j == s {
                            Some(v@)
                        } else {
                            lookup(n0, j)
                        }) by {
                            lemma_path_graft(n0, demoted, pre@, x_old, j);
                            lemma_eq_via_split(j, s, c as int);
                            if pre@.is_prefix_of(j) {
                                let rest = j.skip(c as int);
                                if rest.len() == 0 {
                                    assert(j != s);
                                    assert(!(pre@.len() < j.len()));
                                } else {
                                    assert(rest[0] == j[c as int]);
                                    assert(rest.skip(1) =~= j.skip(c as int + 1));
                                    if rest[0] == x_old {
                                        assert(lookup(r, j) == lookup(demoted, rest.skip(1)));
                                        assert(j != s);
                                    } else if rest[0] == x_new {
                                        assert(lookup(r, j) == lookup(new_leaf, rest.skip(1)));
                                    } else if rest[0] < 16 {
                                        assert(ch@[rest[0] as int] is Empty);
                                    assert(lookup(r, j) == lookup(ch@[rest[0] as int], rest.skip(1)));
                                        assert(j != s);
                                    } else {
                                        assert(j != s);
                                    }
                                }
                            } else {
                                assert(j != s) by {
                                    if j == s {
                                        assert(pre@.is_prefix_of(j)) by {
                                            assert(pre@ =~= j.subrange(0, pre@.len() as int));
                                        }
                                    }
                                }
                            }
                        }
                    }
                    r
                }
            }
        },
    }
}

/// Appends a nibble and a tail to a path.
pub fn join_paths(pre: Vec<u8>, x: u8, tail: &Vec<u8>) -> (r: Vec<u8>)
    ensures
        r@ == pre@ + seq![x] + tail@,
{
    let ghost pre0 = pre@;
    let mut out = pre;
    out.push(x);
    let mut m: usize = 0;
    while m < tail.len()
        invariant
            m <= tail@.len(),
            out@ == pre0 + seq![x] + tail@.take(m as int),
        decreases tail@.len() - m,
    {
        out.push(tail[m]);
        proof {
            assert(pre0 + seq![x] + tail@.take(m + 1) =~= (pre0 + seq![x] + tail@.take(
                m as int,
            )).push(tail@[m as int]));
        }
        m = m + 1;
    }
    proof {
        assert(tail@.take(tail@.len() as int) =~= tail@);
    }
    out
}

/// Simplifies a branch after a removal: a branch with nothing left becomes
/// `Empty`, one with only a value becomes a leaf, and one with a single
/// child and no value merges that child's nibble prefix into its own.
pub fn collapse(path: Vec<u8>, value: Option<Vec<u8>>, children: Vec<Node>) -> (r: Node)
    requires
        nibbles_ok(path@),
        children@.len() == 16,
        forall|m: int| 0 <= m < 16 ==> wf(#[trigger] children@[m]),
    ensures
        wf(r),
        forall|j: Seq<u8>| #[trigger] lookup(r, j) == lookup(
            Node::Branch { path: path, value: value, children: children },
            j,
        ),
{
    let ghost b = Node::Branch { path: path, value: value, children: children };
    let mut cnt: usize = 0;
    let mut idx: usize = 0;
    let mut m: usize = 0;
    while m < 16
        invariant
            children@.len() == 16,
            m <= 16,
            cnt <= m,
            cnt == child_count(children@.take(m as int)),
            cnt > 0 ==> idx < m && !(children@[idx as int] is Empty),
        decreases 16 - m,
    {
        let occupied = match &children[m] {
            Node::Empty => false,
            _ => true,
        };
        proof {
            lemma_child_count_take_succ(children@, m as int);
        }
        if occupied {
            cnt = cnt + 1;
            idx = m;
        }
        m = m + 1;
    }
    proof {
        assert(children@.take(16) =~= children@);
    }
    if cnt == 0 {
        proof {
            assert forall|y: int| 0 <= y < 16 implies (#[trigger] children@[y]) is Empty by {
                if !(children@[y] is Empty) {
                    lemma_child_count_at_least(children@, y);
                }
            }
        }
        match value {
            None => {
                let r = Node::Empty;
                proof {
                    assert forall|j: Seq<u8>| #[trigger] lookup(r, j) == lookup(b, j) by {
                        if path@.is_prefix_of(j) {
                            let rest = j.skip(path@.len() as int);
                            if rest.len() > 0 && rest[0] < 16 {
                                assert(children@[rest[0] as int] is Empty);
                                assert(lookup(b, j) == lookup(
                                    children@[rest[0] as int],
                                    rest.skip(1),
                                ));
                            }
                        }
                    }
                }
                r
            },
            Some(v) => {
                let r = Node::Leaf { path, value: v };
                proof {
                    assert forall|j: Seq<u8>| #[trigger] lookup(r, j) == lookup(b, j) by {
                        if path@.is_prefix_of(j) {
                            let rest = j.skip(path@.len() as int);
                            if rest.len() == 0 {
                                assert(j =~= path@);
                            } else {
                                assert(j != path@);
                                if rest[0] < 16 {
                                    assert(children@[rest[0] as int] is Empty);
                                    assert(lookup(b, j) == lookup(
                                        children@[rest[0] as int],
                                        rest.skip(1),
                                    ));
                                }
                            }
                        } else {
                            assert(j != path@) by {
                                if j == path@ {
                                    assert(path@.is_prefix_of(j)) by {
                                        assert(path@ =~= j.subrange(0, path@.len() as int));
                                    }
                                }
                            }
                        }
                    }
                }
                r
            },
        }
    } else if cnt == 1 && matches!(value, None) {
        let mut ch = children;
        let child = take_child(&mut ch, idx);
        let x: u8 = idx as u8;
        proof {
            assert(!(child is Empty));
            assert(wf(child));
            assert forall|y: int| 0 <= y < 16 && y != idx implies (
            #[trigger] children@[y]) is Empty by {
                if !(children@[y] is Empty) {
                    if y < idx {
                        lemma_child_count_pair(children@, y, idx as int);
                    } else {
                        lemma_child_count_pair(children@, idx as int, y);
                    }
                }
            }
        }
        match child {
            Node::Leaf { path: cp, value: cv } => {
                let ghost small = Node::Leaf { path: cp, value: cv };
                let joined = join_paths(path, x, &cp);
                let r = Node::Leaf { path: joined, value: cv };
                proof {
                    assert forall|mm: int| 0 <= mm < joined@.len() implies is_nibble(
                        #[trigger] joined@[mm],
                    ) by {
                        if mm < path@.len() {
                            assert(joined@[mm] == path@[mm]);
                        } else if mm == path@.len() {
                            assert(joined@[mm] == x);
                        } else {
                            assert(joined@[mm] == cp@[mm - path@.len() - 1]);
                        }
                    }
                    assert(wf(r));
                    assert forall|j: Seq<u8>| #[trigger] lookup(r, j) == lookup(b, j) by {
                        lemma_path_graft(r, small, path@, x, j);
                        if path@.is_prefix_of(j) {
                            let rest = j.skip(path@.len() as int);
                            if rest.len() == 0 {
                                assert(!(path@.len() < j.len()));
                            } else {
                                assert(rest[0] == j[path@.len() as int]);
                                assert(rest.skip(1) =~= j.skip(path@.len() as int + 1));
                                if rest[0] == x {
                                    assert(lookup(b, j) == lookup(small, rest.skip(1)));
                                } else if rest[0] < 16 {
                                    assert(children@[rest[0] as int] is Empty);
                                    assert(lookup(b, j) == lookup(
                                        children@[rest[0] as int],
                                        rest.skip(1),
                                    ));
                                }
                            }
                        }
                    }
                }
                r
            },
            Node::Branch { path: cp, value: cval, children: cch } => {
                let ghost small = Node::Branch { path: cp, value: cval, children: cch };
                let joined = join_paths(path, x, &cp);
                let r = Node::Branch { path: joined, value: cval, children: cch };
                proof {
                    assert forall|mm: int| 0 <= mm < joined@.len() implies is_nibble(
                        #[trigger] joined@[mm],
                    ) by {
                        if mm < path@.len() {
                            assert(joined@[mm] == path@[mm]);
                        } else if mm == path@.len() {
                            assert(joined@[mm] == x);
                        } else {
                            assert(joined@[mm] == cp@[mm - path@.len() - 1]);
                        }
                    }
                    assert(wf(small));
                    assert(wf(r));
                    assert forall|j: Seq<u8>| #[trigger] lookup(r, j) == lookup(b, j) by {
                        lemma_path_graft(r, small, path@, x, j);
                        if path@.is_prefix_of(j) {
                            let rest = j.skip(path@.len() as int);
                            if rest.len() == 0 {
                                assert(!(path@.len() < j.len()));
                            } else {
                                assert(rest[0] == j[path@.len() as int]);
                                assert(rest.skip(1) =~= j.skip(path@.len() as int + 1));
                                if rest[0] == x {
                                    assert(lookup(b, j) == lookup(small, rest.skip(1)));
                                } else if rest[0] < 16 {
                                    assert(children@[rest[0] as int] is Empty);
                                    assert(lookup(b, j) == lookup(
                                        children@[rest[0] as int],
                                        rest.skip(1),
                                    ));
                                }
                            }
                        }
                    }
                }
                r
            },
            Node::Empty => {
                proof {
                    assert(false);
                }
                Node::Empty
            },
        }
    } else {
        let r = Node::Branch { path, value, children };
        proof {
            if cnt == 1 {
                assert(value is Some);
            }
            assert(wf(r));
        }
        r
    }
}

/// Unbinds the nibble path `k[i..]` in `n`, then re-collapses any branch
/// left with too little content. Every other path keeps its binding; a
/// missing key leaves the node as it stands.
#[verifier::rlimit(60)]
pub fn remove_at(n: Node, k: &Vec<u8>, i: usize) -> (r: Node)
    requires
        wf(n),
        nibbles_ok(k@),
        i <= k@.len(),
    ensures
        wf(r),
        forall|j: Seq<u8>| #[trigger] lookup(r, j) == (if j == k@.skip(i as int) {
            None
        } else {
            lookup(n, j)
        }),
    decreases k@.len() - i,
{
    let ghost s = k@.skip(i as int);
    let klen = k.len();
    match n {
        Node::Empty => Node::Empty,
        Node::Leaf { path, value } => {
            let c = common_len(&path, k, i);
            proof {
                lemma_prefix_from_common(path@, k@, i as int, c as int);
            }
            if c == path.len() && i + c == klen {
                proof {
                    assert(path@ =~= s);
                }
                Node::Empty
            } else {
                let r = Node::Leaf { path, value };
                proof {
                    assert forall|j: Seq<u8>| #[trigger] lookup(r, j) == (if j == s {
                        None
                    } else {
                        lookup(n, j)
                    }) by {
                        if j == s {
                            if s == r->Leaf_path@ {
                                assert(path@.is_prefix_of(s)) by {
                                    assert(path@ =~= s.subrange(0, path@.len() as int));
                                }
                                assert(s.len() == path@.len());
                            }
                        }
                    }
                }
                r
            }
        },
        Node::Branch { path, value, children } => {
            let ghost n0 = Node::Branch { path: path, value: value, children: children };
            proof {
                assert(n == n0);
                assert(wf(n0));
            }
            let c = common_len(&path, k, i);
            proof {
                lemma_prefix_from_common(path@, k@, i as int, c as int);
            }
            if c < path.len() {
                let r = Node::Branch { path, value, children };
                proof {
                    assert(wf(r));
                    assert forall|j: Seq<u8>| #[trigger] lookup(r, j) == (if j == s {
                        None
                    } else {
                        lookup(n0, j)
                    }) by {
                        if j == s {
                            assert(!path@.is_prefix_of(s));
                        }
                    }
                }
                r
            } else if i + c == klen {
                // the key terminates here: clear the branch value, simplify
                proof {
                    assert(path@ =~= s);
                }
                let ghost bmid = Node::Branch { path: path, value: None, children: children };
                let r = collapse(path, None, children);
                proof {
                    assert forall|j: Seq<u8>| #[trigger] lookup(r, j) == (if j == s {
                        None
                    } else {
                        lookup(n0, j)
                    }) by {
                        assert(lookup(r, j) == lookup(bmid, j));
                        if path@.is_prefix_of(j) {
                            let rest = j.skip(path@.len() as int);
                            if rest.len() == 0 {
                                assert(j =~= s);
                            } else {
                                assert(j != s);
                                if rest[0] < 16 {
                                    assert(lookup(bmid, j) == lookup(
                                        children@[rest[0] as int],
                                        rest.skip(1),
                                    ));
                                    assert(lookup(n0, j) == lookup(
                                        children@[rest[0] as int],
                                        rest.skip(1),
                                    ));
                                }
                            }
                        } else {
                            assert(j != s) by {
                                if j == s {
                                    assert(path@.is_prefix_of(j)) by {
                                        assert(path@ =~= j.subrange(0, path@.len() as int));
                                    }
                                }
                            }
                        }
                    }
                }
                r
            } else {
                // descend into the child selected by the next nibble
                let x = k[i + c];
                proof {
                    assert(is_nibble(k@[i + c]));
                    assert(wf(children@[x as int]));
                }
                let ghost ch_old = children@;
                let mut ch = children;
                let child = take_child(&mut ch, x as usize);
                let child2 = remove_at(child, k, i + c + 1);
                set_child(&mut ch, x as usize, child2);
                let ghost bmid = Node::Branch { path: path, value: value, children: ch };
                let ghost chmid = ch@;
                let ghost pathg = path@;
                let r = collapse(path, value, ch);
                proof {
                    assert(chmid =~= ch_old.update(x as int, child2));
                    assert forall|m2: int| 0 <= m2 < 16 implies wf(#[trigger] chmid[m2]) by {
                        if m2 != x as int {
                            assert(chmid[m2] == ch_old[m2]);
                        }
                    }
                    assert(pathg =~= s.take(c as int));
                    assert(s[c as int] == x);
                    assert(s.skip(c as int + 1) =~= k@.skip(i + c + 1));
                    assert forall|j: Seq<u8>| #[trigger] lookup(r, j) == (if j == s {
                        None
                    } else {
                        lookup(n0, j)
                    }) by {
                        assert(lookup(r, j) == lookup(bmid, j));
                        lemma_eq_via_split(j, s, c as int);
                        if pathg.is_prefix_of(j) {
                            let rest = j.skip(c as int);
                            if rest.len() == 0 {
                                assert(j != s);
                            } else {
                                assert(rest[0] == j[c as int]);
                                assert(rest.skip(1) =~= j.skip(c as int + 1));
                                if rest[0] == x {
                                    assert(lookup(bmid, j) == lookup(child2, rest.skip(1)));
                                    assert(lookup(n0, j) == lookup(ch_old[x as int], rest.skip(1)));
                                } else if rest[0] < 16 {
                                    assert(lookup(bmid, j) == lookup(
                                        chmid[rest[0] as int],
                                        rest.skip(1),
                                    ));
                                    assert(lookup(n0, j) == lookup(
                                        ch_old[rest[0] as int],
                                        rest.skip(1),
                                    ));
                                    assert(chmid[rest[0] as int] == ch_old[rest[0] as int]);
                                    assert(j != s);
                                } else {
                                    assert(j != s);
                                }
                            }
                        } else {
                            assert(j != s) by {
                                if j == s {
                                    assert(pathg.is_prefix_of(j)) by {
                                        assert(pathg =~= j.subrange(0, pathg.len() as int));
                                    }
                                }
                            }
                        }
                    }
                }
                r
            }
        },
    }
}

} // verus!
