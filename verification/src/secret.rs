//! The 256-bit secret and its bytewise XOR.

use vstd::prelude::*;

verus! {

/// Number of bytes in a secret.
pub const SECRET_LEN: usize = 32;

/// The all-zero byte string of secret length: the neutral element of XOR.
pub open spec fn zero_bytes() -> Seq<u8> {
    Seq::new(32, |i: int| 0u8)
}

/// Bytewise XOR of two byte strings, as long as the first.
pub open spec fn xor_bytes(a: Seq<u8>, b: Seq<u8>) -> Seq<u8> {
    Seq::new(a.len(), |i: int| a[i] ^ b[i])
}

/// XORs a list of byte strings, one after the other, into `start`.
pub open spec fn xor_fold(start: Seq<u8>, items: Seq<Seq<u8>>) -> Seq<u8>
    decreases items.len(),
{
    if items.len() == 0 {
        start
    } else {
        xor_bytes(xor_fold(start, items.drop_last()), items.last())
    }
}

/// XOR of a whole list of byte strings, starting from zero.
pub open spec fn xor_all(items: Seq<Seq<u8>>) -> Seq<u8> {
    xor_fold(zero_bytes(), items)
}

/// Exactly 32 bytes of entropy.
#[derive(Clone, Copy, Debug, PartialEq, Eq)]
pub struct Secret {
    pub bytes: [u8; 32],
}

impl View for Secret {
    type V = Seq<u8>;

    open spec fn view(&self) -> Seq<u8> {
        self.bytes@
    }
}

impl Secret {
    /// The secret whose bytes are all zero.
    pub fn zero() -> (s: Secret)
        ensures
            s@ == zero_bytes(),
    {
        let s = Secret { bytes: [0u8; 32] };
        assert(s@ =~= zero_bytes());
        s
    }

    /// Wraps 32 bytes.
    pub fn from_bytes(bytes: [u8; 32]) -> (s: Secret)
        ensures
            s@ == bytes@,
            s.bytes == bytes,
    {
        Secret { bytes }
    }

    /// XORs `other` into `self`, byte by byte.
    pub fn xor_with(&mut self, other: &Secret)
        ensures
            final(self)@ == xor_bytes(old(self)@, other@),
    {
        let mut i: usize = 0;
        while i < 32
            invariant
                i <= 32,
                forall|k: int| 0 <= k < i ==> self.bytes@[k] == old(self).bytes@[k] ^ other.bytes@[k],
                forall|k: int| i <= k < 32 ==> self.bytes@[k] == old(self).bytes@[k],
            decreases 32 - i,
        {
            let x: u8 = self.bytes[i] ^ other.bytes[i];
            self.bytes[i] = x;
            i += 1;
        }
        assert(self@ =~= xor_bytes(old(self)@, other@));
    }
}

proof fn lemma_byte_xor(a: u8, b: u8, c: u8)
    ensures
        a ^ b == b ^ a,
        (a ^ b) ^ c == a ^ (b ^ c),
        (a ^ b) ^ c == (a ^ c) ^ b,
        a ^ 0u8 == a,
        0u8 ^ a == a,
        a ^ a == 0u8,
        (a ^ b) ^ b == a,
{
    assert(a ^ b == b ^ a) by (bit_vector);
    assert((a ^ b) ^ c == a ^ (b ^ c)) by (bit_vector);
    assert((a ^ b) ^ c == (a ^ c) ^ b) by (bit_vector);
    assert(a ^ 0u8 == a) by (bit_vector);
    assert(0u8 ^ a == a) by (bit_vector);
    assert(a ^ a == 0u8) by (bit_vector);
    assert((a ^ b) ^ b == a) by (bit_vector);
}

/// XOR does not care for the order of its two operands.
pub proof fn lemma_xor_commutative(a: Seq<u8>, b: Seq<u8>)
    requires
        a.len() == b.len(),
    ensures
        xor_bytes(a, b) == xor_bytes(b, a),
{
    assert forall|i: int| 0 <= i < a.len() implies a[i] ^ b[i] == b[i] ^ a[i] by {
        lemma_byte_xor(a[i], b[i], 0);
    }
    assert(xor_bytes(a, b) =~= xor_bytes(b, a));
}

/// XOR does not care for how its operands are grouped.
pub proof fn lemma_xor_associative(a: Seq<u8>, b: Seq<u8>, c: Seq<u8>)
    requires
        a.len() == b.len(),
    ensures
        xor_bytes(xor_bytes(a, b), c) == xor_bytes(a, xor_bytes(b, c)),
{
    assert forall|i: int| 0 <= i < a.len() implies (a[i] ^ b[i]) ^ c[i] == a[i] ^ (b[i] ^ c[i]) by {
        lemma_byte_xor(a[i], b[i], c[i]);
    }
    assert(xor_bytes(xor_bytes(a, b), c) =~= xor_bytes(a, xor_bytes(b, c)));
}

/// Zero is neutral on either side.
pub proof fn lemma_xor_zero(a: Seq<u8>)
    requires
        a.len() == 32,
    ensures
        xor_bytes(a, zero_bytes()) == a,
        xor_bytes(zero_bytes(), a) == a,
{
    assert forall|i: int| 0 <= i < 32 implies a[i] ^ 0u8 == a[i] && 0u8 ^ a[i] == a[i] by {
        lemma_byte_xor(a[i], 0, 0);
    }
    assert(xor_bytes(a, zero_bytes()) =~= a);
    assert(xor_bytes(zero_bytes(), a) =~= a);
}

/// XORing the same bytes in twice changes nothing, and a byte string
/// XORed with itself is zero.
pub proof fn lemma_xor_cancels(a: Seq<u8>, b: Seq<u8>)
    ensures
        xor_bytes(xor_bytes(a, b), b) == a,
        a.len() == 32 ==> xor_bytes(a, a) == zero_bytes(),
{
    assert forall|i: int| 0 <= i < a.len() implies (a[i] ^ b[i]) ^ b[i] == a[i] && a[i] ^ a[i]
        == 0u8 by {
        lemma_byte_xor(a[i], b[i], 0);
    }
    assert(xor_bytes(xor_bytes(a, b), b) =~= a);
    if a.len() == 32 {
        assert(xor_bytes(a, a) =~= zero_bytes());
    }
}

/// Two operands XORed into the same bytes may change places.
pub proof fn lemma_xor_swap(v: Seq<u8>, x: Seq<u8>, y: Seq<u8>)
    ensures
        xor_bytes(xor_bytes(v, x), y) == xor_bytes(xor_bytes(v, y), x),
{
    assert forall|i: int| 0 <= i < v.len() implies (v[i] ^ x[i]) ^ y[i] == (v[i] ^ y[i]) ^ x[i] by {
        lemma_byte_xor(v[i], x[i], y[i]);
    }
    assert(xor_bytes(xor_bytes(v, x), y) =~= xor_bytes(xor_bytes(v, y), x));
}

/// A fold is as long as what it started from.
pub proof fn lemma_xor_fold_len(start: Seq<u8>, items: Seq<Seq<u8>>)
    ensures
        xor_fold(start, items).len() == start.len(),
        xor_all(items).len() == 32,
    decreases items.len(),
{
    if items.len() > 0 {
        lemma_xor_fold_len(start, items.drop_last());
        lemma_xor_fold_len(zero_bytes(), items.drop_last());
    }
}

/// An operand XORed into the start of a fold may as well be XORed into its
/// end.
pub proof fn lemma_xor_fold_start(start: Seq<u8>, x: Seq<u8>, items: Seq<Seq<u8>>)
    ensures
        xor_fold(xor_bytes(start, x), items) == xor_bytes(xor_fold(start, items), x),
    decreases items.len(),
{
    if items.len() > 0 {
        lemma_xor_fold_start(start, x, items.drop_last());
        lemma_xor_swap(xor_fold(start, items.drop_last()), x, items.last());
    }
}

/// Folding the same items in twice gives the start back.
pub proof fn lemma_xor_fold_twice(start: Seq<u8>, items: Seq<Seq<u8>>)
    ensures
        xor_fold(xor_fold(start, items), items) == start,
    decreases items.len(),
{
    if items.len() > 0 {
        let init = items.drop_last();
        let once = xor_fold(start, init);
        lemma_xor_fold_start(once, items.last(), init);
        lemma_xor_fold_twice(start, init);
        lemma_xor_cancels(start, items.last());
    }
}

/// The XOR of a list is the same in whatever order the list is written.
pub proof fn lemma_xor_all_permutation(a: Seq<Seq<u8>>, b: Seq<Seq<u8>>)
    requires
        a.to_multiset() == b.to_multiset(),
    ensures
        xor_all(a) == xor_all(b),
{
    let f = |acc: Seq<u8>, item: Seq<u8>| xor_bytes(acc, item);
    assert(vstd::seq_lib::commutative_foldl(f)) by {
        assert forall|x: Seq<u8>, y: Seq<u8>, v: Seq<u8>| #[trigger] f(f(v, x), y) == f(f(v, y), x) by {
            lemma_xor_swap(v, x, y);
        }
    }
    lemma_xor_fold_is_fold_left(zero_bytes(), a);
    lemma_xor_fold_is_fold_left(zero_bytes(), b);
    vstd::seq_lib::lemma_fold_left_permutation(a, b, f, zero_bytes());
}

proof fn lemma_xor_fold_is_fold_left(start: Seq<u8>, items: Seq<Seq<u8>>)
    ensures
        xor_fold(start, items) == items.fold_left(
            start,
            |acc: Seq<u8>, item: Seq<u8>| xor_bytes(acc, item),
        ),
    decreases items.len(),
{
    if items.len() > 0 {
        lemma_xor_fold_is_fold_left(start, items.drop_last());
    }
}

} // verus!
