//! The Fiat-Shamir transcript: a state that absorbs the prover's messages
//! and from which the challenges are squeezed.
//!
//! The state is the sequence of bytes absorbed since the last squeeze,
//! preceded by the digest that the last squeeze gave. A squeeze hashes the
//! state and keeps the digest as the new state.

use crate::field::TEST_FIELD_MODULUS;
use crate::hash::digest_to_field;
use crate::hash::element_bytes;
use crate::hash::element_to_bytes;
use crate::hash::field_from_digest;
use crate::hash::le_value;
use crate::hash::sha3_256;
use crate::hash::sha3_256_digest;
use vstd::arithmetic::div_mod::*;
use vstd::prelude::*;

verus! {

/// Number of digest bytes that an index challenge is read from.
pub const INDEX_BYTES: usize = 8;

/// The state after absorbing the field element `x`.
pub open spec fn absorb_element(state: Seq<u8>, x: u32) -> Seq<u8> {
    state + element_bytes(x as int)
}

/// The state after absorbing the field elements of `xs`, first to last.
pub open spec fn absorb_elements(state: Seq<u8>, xs: Seq<u32>) -> Seq<u8>
    decreases xs.len(),
{
    if xs.len() == 0 {
        state
    } else {
        absorb_element(absorb_elements(state, xs.drop_last()), xs.last())
    }
}

/// The state after a squeeze: the digest of the state before.
pub open spec fn squeezed(state: Seq<u8>) -> Seq<u8> {
    sha3_256_digest(state)
}

/// The field element that a squeeze of `state` gives.
pub open spec fn field_challenge(state: Seq<u8>) -> u32 {
    digest_to_field(squeezed(state)) as u32
}

/// The index below `bound` that a squeeze of `state` gives: the first
/// eight bytes of the digest, read least significant first, reduced.
pub open spec fn index_challenge(state: Seq<u8>, bound: nat) -> nat {
    le_value(squeezed(state).subrange(0, INDEX_BYTES as int)) % bound
}

/// The state after `count` squeezes in a row.
pub open spec fn squeezed_times(state: Seq<u8>, count: nat) -> Seq<u8>
    decreases count,
{
    if count == 0 {
        state
    } else {
        squeezed(squeezed_times(state, (count - 1) as nat))
    }
}

/// The field elements that `count` squeezes in a row give.
pub open spec fn field_challenges(state: Seq<u8>, count: nat) -> Seq<u32> {
    Seq::new(count, |i: int| field_challenge(squeezed_times(state, i as nat)))
}

/// A Fiat-Shamir transcript.
pub struct Transcript {
    pub state: Vec<u8>,
}

impl Transcript {
    /// The bytes that the next squeeze will hash.
    pub open spec fn view(&self) -> Seq<u8> {
        self.state@
    }

    /// A transcript that has absorbed nothing.
    pub fn new() -> (r: Self)
        ensures
            r@ == Seq::<u8>::empty(),
    {
        Transcript { state: Vec::new() }
    }

    /// Absorbs `bytes`.
    pub fn absorb(&mut self, bytes: &[u8])
        ensures
            final(self)@ == old(self)@ + bytes@,
    {
        let mut i: usize = 0;
        while i < bytes.len()
            invariant
                i <= bytes.len(),
                self@ == old(self)@ + bytes@.subrange(0, i as int),
            decreases bytes.len() - i,
        {
            self.state.push(bytes[i]);
            i = i + 1;
            assert(bytes@.subrange(0, i as int) == bytes@.subrange(0, i - 1).push(bytes@[i - 1]));
        }
        assert(bytes@.subrange(0, bytes.len() as int) == bytes@);
    }

    /// Absorbs the field element `x`, encoded on four bytes.
    pub fn absorb_field(&mut self, x: u32)
        ensures
            final(self)@ == absorb_element(old(self)@, x),
    {
        let bytes = element_to_bytes(x);
        self.absorb(bytes.as_slice());
    }

    /// Absorbs the field elements of `xs`, first to last.
    pub fn absorb_fields(&mut self, xs: &[u32])
        ensures
            final(self)@ == absorb_elements(old(self)@, xs@),
    {
        let mut i: usize = 0;
        assert(xs@.subrange(0, 0) =~= Seq::<u32>::empty());
        while i < xs.len()
            invariant
                i <= xs.len(),
                self@ == absorb_elements(old(self)@, xs@.subrange(0, i as int)),
            decreases xs.len() - i,
        {
            self.absorb_field(xs[i]);
            proof {
                let next = xs@.subrange(0, i + 1);
                assert(next.drop_last() =~= xs@.subrange(0, i as int));
                assert(next.last() == xs@[i as int]);
            }
            i = i + 1;
        }
        assert(xs@.subrange(0, xs.len() as int) == xs@);
    }

    /// Squeezes a digest and keeps it as the new state.
    pub fn squeeze(&mut self) -> (r: Vec<u8>)
        ensures
            r@ == squeezed(old(self)@),
            final(self)@ == squeezed(old(self)@),
            r@.len() == 32,
    {
        let digest = sha3_256(self.state.as_slice());
        self.state = digest.clone();
        digest
    }

    /// Squeezes a field element: the digest, reduced. The digest is not
    /// resampled when it exceeds the modulus, so the element is uniform up
    /// to a bias below `p / 2^256`.
    pub fn challenge_field(&mut self) -> (r: u32)
        ensures
            r == field_challenge(old(self)@),
            final(self)@ == squeezed(old(self)@),
            r < TEST_FIELD_MODULUS,
    {
        let digest = self.squeeze();
        field_from_digest(digest.as_slice())
    }

    /// Squeezes `count` field elements.
    pub fn challenge_fields(&mut self, count: usize) -> (r: Vec<u32>)
        ensures
            r@ == field_challenges(old(self)@, count as nat),
            final(self)@ == squeezed_times(old(self)@, count as nat),
    {
        let mut out: Vec<u32> = Vec::new();
        let mut i: usize = 0;
        while i < count
            invariant
                i <= count,
                out@.len() == i,
                self@ == squeezed_times(old(self)@, i as nat),
                forall|j: int|
                    0 <= j < i ==> out@[j] == field_challenge(squeezed_times(old(self)@, j as nat)),
            decreases count - i,
        {
            let c = self.challenge_field();
            out.push(c);
            i = i + 1;
        }
        assert(out@ =~= field_challenges(old(self)@, count as nat));
        out
    }

    /// Squeezes an index below `bound`.
    pub fn challenge_index(&mut self, bound: usize) -> (r: usize)
        requires
            bound > 0,
        ensures
            r == index_challenge(old(self)@, bound as nat),
            final(self)@ == squeezed(old(self)@),
            r < bound,
    {
        let digest = self.squeeze();
        let mut acc: u64 = 0;
        let mut i: usize = INDEX_BYTES;
        let ghost head = digest@.subrange(0, INDEX_BYTES as int);
        assert(head.subrange(8, 8).len() == 0);
        while i > 0
            invariant
                i <= INDEX_BYTES,
                digest@.len() == 32,
                head == digest@.subrange(0, INDEX_BYTES as int),
                acc == le_value(head.subrange(i as int, INDEX_BYTES as int)),
                acc < pow256(INDEX_BYTES - i),
            decreases i,
        {
            i = i - 1;
            proof {
                let tail = head.subrange(i as int, INDEX_BYTES as int);
                assert(tail.drop_first() =~= head.subrange(i + 1, INDEX_BYTES as int));
                assert(tail[0] == digest@[i as int]);
            }
            acc = acc * 256 + digest[i] as u64;
        }
        assert(head.subrange(0, INDEX_BYTES as int) == head);
        (acc % (bound as u64)) as usize
    }
}

/// `256^k` for `k` up to eight.
pub open spec fn pow256(k: int) -> int {
    if k <= 0 {
        1
    } else if k == 1 {
        0x100
    } else if k == 2 {
        0x1_0000
    } else if k == 3 {
        0x100_0000
    } else if k == 4 {
        0x1_0000_0000
    } else if k == 5 {
        0x100_0000_0000
    } else if k == 6 {
        0x1_0000_0000_0000
    } else if k == 7 {
        0x100_0000_0000_0000
    } else {
        0x1_0000_0000_0000_0000
    }
}

} // verus!
