//! The content-addressed node store.
//!
//! A store entry maps the Blake2b-256 digest of a node's encoded bytes to
//! those bytes, with a reference count so that identical subtrees reached
//! from several places share one entry. The digest of every entry is, by
//! invariant, the digest of its bytes.

use vstd::prelude::*;
use crate::hashing::{blake2_256, digest256};

verus! {

/// One digest-addressed entry.
pub struct StoreEntry {
    pub digest: Vec<u8>,
    pub bytes: Vec<u8>,
    pub refcount: u64,
}

/// The store: a small association list keyed by digest.
pub struct NodeStore {
    pub entries: Vec<StoreEntry>,
}

/// Digests are unique, content-derived, 32 bytes long, and every entry is
/// referenced at least once.
pub open spec fn store_wf(s: Seq<StoreEntry>) -> bool {
    &&& forall|a: int, b: int|
        0 <= a < b < s.len() ==> (#[trigger] s[a].digest@) != (#[trigger] s[b].digest@)
    &&& forall|a: int| 0 <= a < s.len() ==> (#[trigger] s[a].digest@) == digest256(s[a].bytes@)
    &&& forall|a: int| 0 <= a < s.len() ==> (#[trigger] s[a].refcount) >= 1
}

/// Whether some entry carries digest `d`.
pub open spec fn has_digest(s: Seq<StoreEntry>, d: Seq<u8>) -> bool {
    exists|a: int| 0 <= a < s.len() && (#[trigger] s[a].digest@) == d
}

/// The bytes stored under digest `d`.
pub open spec fn bytes_for(s: Seq<StoreEntry>, d: Seq<u8>) -> Seq<u8> {
    let a = choose|a: int| 0 <= a < s.len() && (#[trigger] s[a].digest@) == d;
    s[a].bytes@
}

/// The reference count of the entry under digest `d`.
pub open spec fn rc_for(s: Seq<StoreEntry>, d: Seq<u8>) -> u64 {
    let a = choose|a: int| 0 <= a < s.len() && (#[trigger] s[a].digest@) == d;
    s[a].refcount
}

/// With unique digests, a matching index pins the stored bytes and count.
pub proof fn lemma_found(s: Seq<StoreEntry>, d: Seq<u8>, a: int)
    requires
        forall|x: int, y: int|
            0 <= x < y < s.len() ==> (#[trigger] s[x].digest@) != (#[trigger] s[y].digest@),
        0 <= a < s.len(),
        s[a].digest@ == d,
    ensures
        has_digest(s, d),
        bytes_for(s, d) == s[a].bytes@,
        rc_for(s, d) == s[a].refcount,
{
    let b = choose|b: int| 0 <= b < s.len() && (#[trigger] s[b].digest@) == d;
    if b != a {
        if b < a {
            assert(s[b].digest@ != s[a].digest@);
        } else {
            assert(s[a].digest@ != s[b].digest@);
        }
    }
}

/// Compares two byte buffers.
pub fn bytes_eq(a: &Vec<u8>, b: &Vec<u8>) -> (r: bool)
    ensures
        r <==> a@ == b@,
{
    if a.len() != b.len() {
        proof {
            assert(a@.len() != b@.len());
        }
        return false;
    }
    let mut m: usize = 0;
    while m < a.len()
        invariant
            a@.len() == b@.len(),
            m <= a@.len(),
            forall|x: int| 0 <= x < m ==> a@[x] == b@[x],
        decreases a@.len() - m,
    {
        if a[m] != b[m] {
            return false;
        }
        m = m + 1;
    }
    proof {
        assert(a@ =~= b@);
    }
    true
}

impl NodeStore {
    /// A fresh, empty store.
    pub fn new() -> (r: NodeStore)
        ensures
            r.entries@.len() == 0,
            store_wf(r.entries@),
    {
        NodeStore { entries: Vec::new() }
    }

    /// Finds the index of the entry holding digest `d`, if any.
    fn find(&self, d: &Vec<u8>) -> (r: Option<usize>)
        requires
            store_wf(self.entries@),
        ensures
            match r {
                Some(a) => a < self.entries@.len() && self.entries@[a as int].digest@ == d@
                    && has_digest(self.entries@, d@) && bytes_for(self.entries@, d@)
                    == self.entries@[a as int].bytes@ && rc_for(self.entries@, d@)
                    == self.entries@[a as int].refcount,
                None => !has_digest(self.entries@, d@),
            },
    {
        let mut a: usize = 0;
        while a < self.entries.len()
            invariant
                store_wf(self.entries@),
                a <= self.entries@.len(),
                forall|x: int| 0 <= x < a ==> (#[trigger] self.entries@[x].digest@) != d@,
            decreases self.entries@.len() - a,
        {
            if bytes_eq(&self.entries[a].digest, d) {
                proof {
                    lemma_found(self.entries@, d@, a as int);
                }
                return Some(a);
            }
            a = a + 1;
        }
        None
    }

    /// Stores `b` under its digest. A first occurrence is inserted with
    /// count 1; a repeated occurrence gains a reference. The entry always
    /// ends up holding exactly these bytes: under the content-addressing
    /// invariant any bytes already there share the same digest.
    pub fn put(&mut self, b: &Vec<u8>) -> (d: Vec<u8>)
        requires
            store_wf(old(self).entries@),
        ensures
            store_wf(final(self).entries@),
            d@ == digest256(b@),
            has_digest(final(self).entries@, d@),
            bytes_for(final(self).entries@, d@) == b@,
            !has_digest(old(self).entries@, d@) ==> rc_for(final(self).entries@, d@) == 1,
            has_digest(old(self).entries@, d@) && rc_for(old(self).entries@, d@) < u64::MAX
                ==> rc_for(final(self).entries@, d@) == rc_for(old(self).entries@, d@) + 1,
            forall|d2: Seq<u8>|
                d2 != d@ ==> (has_digest(final(self).entries@, d2) == has_digest(
                    old(self).entries@,
                    d2,
                ) && (has_digest(old(self).entries@, d2) ==> bytes_for(final(self).entries@, d2)
                    == bytes_for(old(self).entries@, d2) && rc_for(final(self).entries@, d2)
                    == rc_for(old(self).entries@, d2))),
    {
        let d = blake2_256(b.as_slice());
        let ghost s0 = self.entries@;
        match self.find(&d) {
            Some(a) => {
                let e = self.entries.remove(a);
                let nrc: u64 = if e.refcount < u64::MAX {
                    e.refcount + 1
                } else {
                    e.refcount
                };
                let e2 = StoreEntry {
                    digest: e.digest,
                    bytes: crate::ops::clone_bytes(b),
                    refcount: nrc,
                };
                self.entries.insert(a, e2);
                proof {
                    assert(self.entries@ =~= s0.update(a as int, self.entries@[a as int]));
                    let ghost s1 = self.entries@;
                    assert(s1[a as int].digest@ == d@);
                    assert(s1[a as int].bytes@ == b@);
                    assert forall|x: int, y: int| 0 <= x < y < s1.len() implies (
                    #[trigger] s1[x].digest@) != (#[trigger] s1[y].digest@) by {
                        assert(s1[x].digest@ == s0[x].digest@);
                        assert(s1[y].digest@ == s0[y].digest@);
                    }
                    lemma_found(s1, d@, a as int);
                    assert forall|d2: Seq<u8>| d2 != d@ && has_digest(s0, d2) implies has_digest(
                        s1,
                        d2,
                    ) && bytes_for(s1, d2) == bytes_for(s0, d2) && rc_for(s1, d2) == rc_for(
                        s0,
                        d2,
                    ) by {
                        let x = choose|x: int| 0 <= x < s0.len() && (#[trigger] s0[x].digest@)
                            == d2;
                        assert(s1[x].digest@ == d2);
                        lemma_found(s1, d2, x);
                        lemma_found(s0, d2, x);
                    }
                    assert forall|d2: Seq<u8>| d2 != d@ && has_digest(s1, d2) implies has_digest(
                        s0,
                        d2,
                    ) by {
                        let x = choose|x: int| 0 <= x < s1.len() && (#[trigger] s1[x].digest@)
                            == d2;
                        assert(s0[x].digest@ == d2);
                    }
                }
                d
            },
            None => {
                let dc = crate::ops::clone_bytes(&d);
                let bc = crate::ops::clone_bytes(b);
                let e = StoreEntry { digest: dc, bytes: bc, refcount: 1 };
                self.entries.push(e);
                proof {
                    let ghost s1 = self.entries@;
                    let ghost n = s0.len() as int;
                    assert(s1.len() == n + 1);
                    assert(s1[n].digest@ == d@);
                    assert forall|x: int| 0 <= x < n implies s1[x] == s0[x] by {}
                    assert forall|x: int, y: int| 0 <= x < y < s1.len() implies (
                    #[trigger] s1[x].digest@) != (#[trigger] s1[y].digest@) by {
                        if y < n {
                        } else {
                            assert(y == n);
                            assert(s1[x].digest@ == s0[x].digest@);
                            assert(!has_digest(s0, d@));
                            if s1[x].digest@ == d@ {
                                assert(has_digest(s0, d@));
                            }
                        }
                    }
                    lemma_found(s1, d@, n);
                    assert forall|d2: Seq<u8>| d2 != d@ && has_digest(s0, d2) implies has_digest(
                        s1,
                        d2,
                    ) && bytes_for(s1, d2) == bytes_for(s0, d2) && rc_for(s1, d2) == rc_for(
                        s0,
                        d2,
                    ) by {
                        let x = choose|x: int| 0 <= x < s0.len() && (#[trigger] s0[x].digest@)
                            == d2;
                        assert(s1[x].digest@ == d2);
                        lemma_found(s1, d2, x);
                        lemma_found(s0, d2, x);
                    }
                    assert forall|d2: Seq<u8>| d2 != d@ && has_digest(s1, d2) implies has_digest(
                        s0,
                        d2,
                    ) by {
                        let x = choose|x: int| 0 <= x < s1.len() && (#[trigger] s1[x].digest@)
                            == d2;
                        assert(x < n) by {
                            if x == n {
                                assert(s1[x].digest@ == d@);
                            }
                        }
                        assert(s0[x].digest@ == d2);
                    }
                }
                d
            },
        }
    }

    /// The bytes stored under `d`, or `None` when the digest is absent.
    pub fn get(&self, d: &Vec<u8>) -> (r: Option<Vec<u8>>)
        requires
            store_wf(self.entries@),
        ensures
            match r {
                Some(b) => has_digest(self.entries@, d@) && b@ == bytes_for(self.entries@, d@),
                None => !has_digest(self.entries@, d@),
            },
    {
        match self.find(d) {
            Some(a) => Some(crate::ops::clone_bytes(&self.entries[a].bytes)),
            None => None,
        }
    }

    /// Releases one reference to `d`, evicting the entry when the last
    /// reference goes. Unknown digests are left alone.
    pub fn remove(&mut self, d: &Vec<u8>)
        requires
            store_wf(old(self).entries@),
        ensures
            store_wf(final(self).entries@),
            !has_digest(old(self).entries@, d@) ==> final(self).entries@ == old(self).entries@,
            has_digest(old(self).entries@, d@) && rc_for(old(self).entries@, d@) == 1
                ==> !has_digest(final(self).entries@, d@),
            has_digest(old(self).entries@, d@) && rc_for(old(self).entries@, d@) > 1 ==> (
            has_digest(final(self).entries@, d@) && rc_for(final(self).entries@, d@) == rc_for(
                old(self).entries@,
                d@,
            ) - 1 && bytes_for(final(self).entries@, d@) == bytes_for(old(self).entries@, d@)),
            forall|d2: Seq<u8>|
                d2 != d@ ==> (has_digest(final(self).entries@, d2) == has_digest(
                    old(self).entries@,
                    d2,
                ) && (has_digest(old(self).entries@, d2) ==> bytes_for(final(self).entries@, d2)
                    == bytes_for(old(self).entries@, d2) && rc_for(final(self).entries@, d2)
                    == rc_for(old(self).entries@, d2))),
    {
        let ghost s0 = self.entries@;
        match self.find(d) {
            Some(a) => {
                let e = self.entries.remove(a);
                if e.refcount > 1 {
                    let e2 = StoreEntry {
                        digest: e.digest,
                        bytes: e.bytes,
                        refcount: e.refcount - 1,
                    };
                    self.entries.insert(a, e2);
                    proof {
                        assert(self.entries@ =~= s0.update(a as int, self.entries@[a as int]));
                        let ghost s1 = self.entries@;
                        assert forall|x: int, y: int| 0 <= x < y < s1.len() implies (
                        #[trigger] s1[x].digest@) != (#[trigger] s1[y].digest@) by {
                            assert(s1[x].digest@ == s0[x].digest@);
                            assert(s1[y].digest@ == s0[y].digest@);
                        }
                        lemma_found(s1, d@, a as int);
                        assert forall|d2: Seq<u8>|
                            d2 != d@ && has_digest(s0, d2) implies has_digest(s1, d2) && bytes_for(
                            s1,
                            d2,
                        ) == bytes_for(s0, d2) && rc_for(s1, d2) == rc_for(s0, d2) by {
                            let x = choose|x: int|
                                0 <= x < s0.len() && (#[trigger] s0[x].digest@) == d2;
                            assert(s1[x].digest@ == d2);
                            lemma_found(s1, d2, x);
                            lemma_found(s0, d2, x);
                        }
                        assert forall|d2: Seq<u8>|
                            d2 != d@ && has_digest(s1, d2) implies has_digest(s0, d2) by {
                            let x = choose|x: int|
                                0 <= x < s1.len() && (#[trigger] s1[x].digest@) == d2;
                            assert(s0[x].digest@ == d2);
                        }
                    }
                } else {
                    proof {
                        let ghost s1 = self.entries@;
                        assert(s1 =~= s0.remove(a as int));
                        assert forall|x: int, y: int| 0 <= x < y < s1.len() implies (
                        #[trigger] s1[x].digest@) != (#[trigger] s1[y].digest@) by {
                            let x0: int = if x < a { x } else { x + 1 };
                            let y0: int = if y < a { y } else { y + 1 };
                            assert(s1[x] == s0[x0]);
                            assert(s1[y] == s0[y0]);
                        }
                        assert forall|d2: Seq<u8>|
                            d2 != d@ && has_digest(s0, d2) implies has_digest(s1, d2) && bytes_for(
                            s1,
                            d2,
                        ) == bytes_for(s0, d2) && rc_for(s1, d2) == rc_for(s0, d2) by {
                            let x = choose|x: int|
                                0 <= x < s0.len() && (#[trigger] s0[x].digest@) == d2;
                            let x1: int = if x < a { x } else { x - 1 };
                            assert(s1[x1] == s0[x]);
                            lemma_found(s1, d2, x1);
                            lemma_found(s0, d2, x);
                        }
                        assert forall|d2: Seq<u8>|
                            d2 != d@ && has_digest(s1, d2) implies has_digest(s0, d2) by {
                            let x = choose|x: int|
                                0 <= x < s1.len() && (#[trigger] s1[x].digest@) == d2;
                            let x0: int = if x < a { x } else { x + 1 };
                            assert(s1[x] == s0[x0]);
                        }
                        if has_digest(s1, d@) {
                            let x = choose|x: int|
                                0 <= x < s1.len() && (#[trigger] s1[x].digest@) == d@;
                            let x0: int = if x < a { x } else { x + 1 };
                            assert(s1[x] == s0[x0]);
                            assert(x0 != a);
                            if x0 < a {
                                assert(s0[x0].digest@ != s0[a as int].digest@);
                            } else {
                                assert(s0[a as int].digest@ != s0[x0].digest@);
                            }
                            assert(false);
                        }
                    }
                }
            },
            None => {},
        }
    }

    /// Drops every entry.
    pub fn clear(&mut self)
        ensures
            final(self).entries@.len() == 0,
            store_wf(final(self).entries@),
    {
        self.entries.clear();
    }
}

} // verus!
