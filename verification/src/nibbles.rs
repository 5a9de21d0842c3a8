//! Nibble-path utilities.
//!
//! The trie branches on half-bytes: each key byte splits into two 4-bit
//! nibbles, most significant first. Inside the engine a nibble path is kept
//! one nibble per byte; the codec packs such a path two nibbles to a byte,
//! with an explicit alignment offset when the count is odd.

use vstd::prelude::*;

verus! {

/// A nibble is the 4-bit half of a byte.
pub open spec fn is_nibble(n: u8) -> bool {
    n < 16
}

/// Every element of the sequence is a nibble.
pub open spec fn nibbles_ok(s: Seq<u8>) -> bool {
    forall|i: int| 0 <= i < s.len() ==> is_nibble(#[trigger] s[i])
}

/// The nibble sequence of a byte string: each byte contributes its high
/// nibble and then its low nibble.
pub open spec fn to_nibbles_spec(b: Seq<u8>) -> Seq<u8> {
    Seq::new(
        2 * b.len(),
        |i: int| if i % 2 == 0 { b[i / 2] / 16 } else { b[i / 2] % 16 },
    )
}

/// Converts a byte-oriented key into its nibble path.
pub fn to_nibbles(b: &[u8]) -> (r: Vec<u8>)
    ensures
        r@ == to_nibbles_spec(b@),
        nibbles_ok(r@),
{
    let mut out: Vec<u8> = Vec::new();
    let mut i: usize = 0;
    while i < b.len()
        invariant
            i <= b@.len(),
            out@.len() == 2 * i,
            forall|j: int| 0 <= j < out@.len() ==> out@[j] == to_nibbles_spec(b@)[j],
        decreases b@.len() - i,
    {
        out.push(b[i] / 16);
        out.push(b[i] % 16);
        i = i + 1;
    }
    proof {
        assert(out@ =~= to_nibbles_spec(b@));
    }
    out
}

/// Two distinct byte strings have distinct nibble paths.
pub proof fn lemma_to_nibbles_injective(a: Seq<u8>, b: Seq<u8>)
    requires
        to_nibbles_spec(a) == to_nibbles_spec(b),
    ensures
        a == b,
{
    assert(to_nibbles_spec(a).len() == 2 * a.len());
    assert(to_nibbles_spec(b).len() == 2 * b.len());
    assert(a.len() == b.len());
    assert forall|i: int| 0 <= i < a.len() implies a[i] == b[i] by {
        assert(to_nibbles_spec(a)[2 * i] == a[(2 * i) / 2] / 16);
        assert(to_nibbles_spec(b)[2 * i] == b[(2 * i) / 2] / 16);
        assert(to_nibbles_spec(a)[2 * i + 1] == a[(2 * i + 1) / 2] % 16);
        assert(to_nibbles_spec(b)[2 * i + 1] == b[(2 * i + 1) / 2] % 16);
        assert(a[i] / 16 == b[i] / 16);
        assert(a[i] % 16 == b[i] % 16);
        assert(a[i] == a[i] / 16 * 16 + a[i] % 16) by (nonlinear_arith);
        assert(b[i] == b[i] / 16 * 16 + b[i] % 16) by (nonlinear_arith);
    }
    assert(a =~= b);
}

/// A nibble path packed two nibbles to a byte. When the count is odd the
/// first packed byte carries only the first nibble in its low half; the
/// unused high half is the alignment offset that a reader must skip.
pub open spec fn packed_nibbles(p: Seq<u8>) -> Seq<u8> {
    if p.len() % 2 == 0 {
        Seq::new(p.len() / 2, |i: int| ((p[2 * i] * 16 + p[2 * i + 1]) as u8))
    } else {
        Seq::new(
            (p.len() + 1) / 2,
            |i: int| if i == 0 { p[0] } else { ((p[2 * i - 1] * 16 + p[2 * i]) as u8) },
        )
    }
}

/// The inverse reading: the first `count` nibbles denoted by a packed
/// buffer, honouring the odd-count alignment offset.
pub open spec fn unpacked_nibbles(b: Seq<u8>, count: nat) -> Seq<u8> {
    if count % 2 == 0 {
        Seq::new(count, |i: int| if i % 2 == 0 { b[i / 2] / 16 } else { b[i / 2] % 16 })
    } else {
        Seq::new(count, |i: int| if i % 2 == 1 { b[(i + 1) / 2] / 16 } else { b[i / 2] % 16 })
    }
}

/// Packing then unpacking returns the original nibble path.
pub proof fn lemma_pack_unpack(p: Seq<u8>)
    requires
        nibbles_ok(p),
    ensures
        unpacked_nibbles(packed_nibbles(p), p.len()) == p,
{
    let b = packed_nibbles(p);
    let u = unpacked_nibbles(b, p.len());
    assert forall|i: int| 0 <= i < p.len() implies u[i] == p[i] by {
        if p.len() % 2 == 0 {
            let j = i / 2;
            assert(b[j] == (p[2 * j] * 16 + p[2 * j + 1]) as u8);
            assert(is_nibble(p[2 * j]) && is_nibble(p[2 * j + 1]));
            assert((p[2 * j] * 16 + p[2 * j + 1]) < 256);
            if i % 2 == 0 {
                assert(i == 2 * j);
                assert((p[2 * j] * 16 + p[2 * j + 1]) / 16 == p[2 * j]) by (nonlinear_arith)
                    requires p[2 * j] < 16 && p[2 * j + 1] < 16;
            } else {
                assert(i == 2 * j + 1);
                assert((p[2 * j] * 16 + p[2 * j + 1]) % 16 == p[2 * j + 1]) by (nonlinear_arith)
                    requires p[2 * j] < 16 && p[2 * j + 1] < 16;
            }
        } else {
            if i == 0 {
                assert(b[0] == p[0]);
                assert(p[0] % 16 == p[0]);
            } else if i % 2 == 1 {
                let j = (i + 1) / 2;
                assert(j >= 1);
                assert(b[j] == (p[2 * j - 1] * 16 + p[2 * j]) as u8);
                assert(2 * j - 1 == i);
                assert((p[i] * 16 + p[2 * j]) / 16 == p[i]) by (nonlinear_arith)
                    requires p[i] < 16 && p[2 * j] < 16;
            } else {
                let j = i / 2;
                assert(j >= 1);
                assert(b[j] == (p[2 * j - 1] * 16 + p[2 * j]) as u8);
                assert(2 * j == i);
                assert((p[2 * j - 1] * 16 + p[i]) % 16 == p[i]) by (nonlinear_arith)
                    requires p[2 * j - 1] < 16 && p[i] < 16;
            }
        }
    }
    assert(u =~= p);
}

/// Packs a nibble path for the codec.
pub fn pack_nibbles(p: &Vec<u8>) -> (r: Vec<u8>)
    requires
        nibbles_ok(p@),
    ensures
        r@ == packed_nibbles(p@),
{
    let mut out: Vec<u8> = Vec::new();
    let mut i: usize = 0;
    if p.len() % 2 == 1 {
        out.push(p[0]);
        i = 1;
    }
    while i < p.len()
        invariant
            nibbles_ok(p@),
            i <= p@.len(),
            i % 2 == p@.len() % 2,
            p@.len() % 2 == 1 ==> i >= 1,
            out@.len() == (i + 1) / 2,
            forall|j: int| 0 <= j < out@.len() ==> out@[j] == packed_nibbles(p@)[j],
        decreases p@.len() - i,
    {
        out.push(p[i] * 16 + p[i + 1]);
        i = i + 2;
    }
    proof {
        assert(out@ =~= packed_nibbles(p@));
    }
    out
}

/// Unpacks `count` nibbles from a packed buffer.
pub fn unpack_nibbles(b: &[u8], count: usize) -> (r: Vec<u8>)
    requires
        b@.len() == (count + 1) / 2,
    ensures
        r@ == unpacked_nibbles(b@, count as nat),
        nibbles_ok(r@),
{
    let mut out: Vec<u8> = Vec::new();
    let mut i: usize = 0;
    while i < count
        invariant
            b@.len() == (count + 1) / 2,
            i <= count,
            out@.len() == i,
            forall|j: int| 0 <= j < i ==> out@[j] == unpacked_nibbles(b@, count as nat)[j]
                && is_nibble(out@[j]),
        decreases count - i,
    {
        let n: u8 = if count % 2 == 0 {
            if i % 2 == 0 { b[i / 2] / 16 } else { b[i / 2] % 16 }
        } else {
            if i % 2 == 1 { b[(i + 1) / 2] / 16 } else { b[i / 2] % 16 }
        };
        out.push(n);
        i = i + 1;
    }
    proof {
        assert(out@ =~= unpacked_nibbles(b@, count as nat));
    }
    out
}

/// Any subrange of a nibble sequence is a nibble sequence.
pub proof fn lemma_nibbles_subrange(k: Seq<u8>, a: int, b: int)
    requires
        nibbles_ok(k),
        0 <= a <= b <= k.len(),
    ensures
        nibbles_ok(k.subrange(a, b)),
{
    assert forall|m: int| 0 <= m < k.subrange(a, b).len() implies is_nibble(
        #[trigger] k.subrange(a, b)[m],
    ) by {
        assert(k.subrange(a, b)[m] == k[a + m]);
    }
}

/// Any suffix of a nibble sequence is a nibble sequence.
pub proof fn lemma_nibbles_skip(k: Seq<u8>, a: int)
    requires
        nibbles_ok(k),
        0 <= a <= k.len(),
    ensures
        nibbles_ok(k.skip(a)),
{
    lemma_nibbles_subrange(k, a, k.len() as int);
    assert(k.skip(a) =~= k.subrange(a, k.len() as int));
}

/// One lowercase ASCII hex digit.
pub open spec fn hex_digit(n: u8) -> u8 {
    if n < 10 {
        (n + 48) as u8
    } else {
        (n + 87) as u8
    }
}

/// The lowercase ASCII hex text of a byte string: two digits per byte,
/// high nibble first.
pub open spec fn hex_of(b: Seq<u8>) -> Seq<u8> {
    Seq::new(
        2 * b.len(),
        |i: int| hex_digit(if i % 2 == 0 { b[i / 2] / 16 } else { b[i / 2] % 16 }),
    )
}

/// Relies on hex::encode: lowercase hex text of the input, two digits per
/// byte, high nibble first.
#[verifier::external_body]
pub fn u8_to_hex_vec(bytes: &[u8]) -> (r: Vec<u8>)
    ensures
        r@ == hex_of(bytes@),
{
    hex::encode(bytes).into_bytes()
}

} // verus!
