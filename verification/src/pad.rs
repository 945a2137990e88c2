//! Random pads and the buffers that hold them.
//!
//! The bytes come from the operating system through the `rand` crate; the
//! buffers of one split live in a `smallvec::SmallVec`, which keeps up to
//! three of them without touching the heap.

use vstd::prelude::*;
use crate::secret::{zero_bytes, Secret};

verus! {

/// The error of the `rand` crate's random sources, carried through unread.
#[verifier::external_type_specification]
#[verifier::external_body]
pub struct ExRandError(rand::Error);

/// The pads of one split, in the order of the shares that carry them. They
/// are kept in a `smallvec::SmallVec`, so the type is opaque to the verifier.
#[verifier::external_body]
pub struct PadBuffers {
    slots: smallvec::SmallVec<[[u8; 32]; 3]>,
}

/// The buffers that the `SmallVec` inside holds, first to last.
pub uninterp spec fn buffers_of(p: PadBuffers) -> Seq<[u8; 32]>;

/// The most buffers that one set can be asked to hold: their bytes must
/// fit in an allocation on every platform.
pub const MAX_PADS: usize = 0x3ff_ffff;

/// The operating system gave no random bytes.
#[derive(Clone, Copy, Debug, PartialEq, Eq)]
pub struct RandomnessError;

/// Calls `rand::Fill::try_fill` on the buffer with `rand::rngs::OsRng`.
/// Nothing is claimed of the bytes that it leaves there.
#[verifier::external_body]
fn try_fill_random(buf: &mut [u8; 32]) -> (r: Result<(), rand::Error>) {
    rand::Fill::try_fill(buf, &mut rand::rngs::OsRng)
}

/// Calls `SmallVec::from_elem` with a zeroed array. Trusted: the vector
/// holds `n` buffers, each of them zero.
#[verifier::external_body]
fn zeroed_slots(n: usize) -> (v: PadBuffers)
    requires
        n <= MAX_PADS,
    ensures
        buffers_of(v).len() == n,
        forall|i: int| 0 <= i < n ==> (#[trigger] buffers_of(v)[i])@ == zero_bytes(),
{
    PadBuffers { slots: smallvec::SmallVec::from_elem([0u8; 32], n) }
}

/// Calls `SmallVec::len`. Trusted: it is the number of buffers held.
#[verifier::external_body]
fn slot_count(v: &PadBuffers) -> (n: usize)
    ensures
        n == buffers_of(*v).len(),
{
    v.slots.len()
}

/// Reads through `SmallVec`'s `Index` impl. Trusted: it yields the buffer
/// at that position.
#[verifier::external_body]
fn slot_at(v: &PadBuffers, i: usize) -> (b: [u8; 32])
    requires
        i < buffers_of(*v).len(),
    ensures
        b == buffers_of(*v)[i as int],
{
    v.slots[i]
}

/// Writes through `SmallVec`'s `IndexMut` impl. Trusted: the buffer at that
/// position is replaced and no other changes.
#[verifier::external_body]
fn put_slot(v: &mut PadBuffers, i: usize, b: [u8; 32])
    requires
        i < buffers_of(*old(v)).len(),
    ensures
        buffers_of(*final(v)) == buffers_of(*old(v)).update(i as int, b),
{
    v.slots[i] = b;
}

/// What a buffer is worth once the random source has answered: the secret
/// that it holds where the source filled it, and the failure where the
/// source failed, whatever it left in the buffer.
pub fn secret_from_fill(filled: Result<(), rand::Error>, bytes: [u8; 32]) -> (r: Result<
    Secret,
    RandomnessError,
>)
    ensures
        filled is Ok ==> r is Ok && r.unwrap().bytes == bytes,
        filled is Err ==> r is Err,
{
    match filled {
        Ok(_) => Ok(Secret { bytes }),
        Err(_) => Err(RandomnessError),
    }
}

/// Draws one secret from the operating system's random source. Whatever
/// bytes arrive are a secret; a source that fails is reported.
pub fn draw_secret() -> (r: Result<Secret, RandomnessError>) {
    let mut buf = [0u8; 32];
    let filled = try_fill_random(&mut buf);
    secret_from_fill(filled, buf)
}

impl View for PadBuffers {
    type V = Seq<Seq<u8>>;

    open spec fn view(&self) -> Seq<Seq<u8>> {
        Seq::new(buffers_of(*self).len(), |i: int| buffers_of(*self)[i]@)
    }
}

impl PadBuffers {
    /// Every pad is 32 bytes long.
    pub proof fn lemma_pad_len(&self, i: int)
        requires
            0 <= i < self@.len(),
        ensures
            self@[i].len() == 32,
    {
    }

    /// `n` pads, all zero.
    pub fn zeroed(n: usize) -> (p: PadBuffers)
        requires
            n <= MAX_PADS,
        ensures
            p@ == Seq::new(n as nat, |i: int| zero_bytes()),
    {
        let p = zeroed_slots(n);
        assert(p@ =~= Seq::new(n as nat, |i: int| zero_bytes()));
        p
    }

    /// The number of pads.
    pub fn len(&self) -> (n: usize)
        ensures
            n == self@.len(),
    {
        slot_count(self)
    }

    /// The pad at position `i`.
    pub fn get(&self, i: usize) -> (s: Secret)
        requires
            i < self@.len(),
        ensures
            s@ == self@[i as int],
    {
        Secret { bytes: slot_at(self, i) }
    }

    /// Replaces the pad at position `i`.
    pub fn set(&mut self, i: usize, pad: &Secret)
        requires
            i < old(self)@.len(),
        ensures
            final(self)@ == old(self)@.update(i as int, pad@),
    {
        put_slot(self, i, pad.bytes);
        assert(self@ =~= old(self)@.update(i as int, pad@));
    }

    /// Draws every pad anew from the operating system's random source, the
    /// first pad first. The number of pads stays. Without pads nothing is
    /// drawn, so nothing can fail. Where the source fails, the pad that it
    /// failed on and every pad after it are as they were; the pads before it
    /// stay drawn.
    pub fn refill(&mut self) -> (r: Result<(), RandomnessError>)
        ensures
            final(self)@.len() == old(self)@.len(),
            old(self)@.len() == 0 ==> r is Ok && final(self)@ == old(self)@,
            r is Err ==> exists|k: int|
                0 <= k < old(self)@.len() && #[trigger] final(self)@.skip(k) == old(self)@.skip(k),
    {
        let n = self.len();
        let mut i: usize = 0;
        while i < n
            invariant
                i <= n,
                n == self@.len(),
                n == old(self)@.len(),
                self@.skip(i as int) == old(self)@.skip(i as int),
            decreases n - i,
        {
            match draw_secret() {
                Ok(pad) => {
                    self.set(i, &pad);
                },
                Err(e) => {
                    return Err(e);
                },
            }
            proof {
                let drawn = i + 1;
                assert(self@.skip(drawn) =~= old(self)@.skip(i as int).skip(1));
                assert(old(self)@.skip(i as int).skip(1) =~= old(self)@.skip(drawn));
            }
            i += 1;
        }
        assert(n == 0 ==> self@ =~= old(self)@);
        Ok(())
    }
}

} // verus!
