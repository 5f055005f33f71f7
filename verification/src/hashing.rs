//! Streaming content hashing.
//!
//! A digest is a fast equality proxy for byte content: equal byte streams are
//! guaranteed to produce equal digests, while distinct streams may collide.
//! The accumulator absorbs the stream chunk by chunk, so the whole input
//! never has to reside in memory at once, and absorbing a concatenation
//! equals absorbing its pieces in turn.

use vstd::prelude::*;

verus! {

/// Initial accumulator value of the 64-bit FNV-1a hash.
pub const FNV_OFFSET_BASIS: u64 = 0xcbf2_9ce4_8422_2325;

/// Multiplier of the 64-bit FNV-1a hash.
pub const FNV_PRIME: u64 = 0x0000_0100_0000_01b3;

/// One FNV-1a round: fold a single byte into the accumulator.
pub open spec fn fnv_step(state: u64, byte: u8) -> u64 {
    (state ^ (byte as u64)).wrapping_mul(FNV_PRIME)
}

/// Fold a whole byte sequence into the accumulator, front to back.
pub open spec fn fnv_absorb(state: u64, bytes: Seq<u8>) -> u64
    decreases bytes.len(),
{
    if bytes.len() == 0 {
        state
    } else {
        fnv_absorb(fnv_step(state, bytes[0]), bytes.drop_first())
    }
}

/// The 64-bit FNV-1a digest of a byte sequence.
pub open spec fn fnv_digest(bytes: Seq<u8>) -> u64 {
    fnv_absorb(FNV_OFFSET_BASIS, bytes)
}

/// Absorbing one more byte is one more FNV-1a round.
pub proof fn lemma_fnv_absorb_push(state: u64, bytes: Seq<u8>, byte: u8)
    ensures
        fnv_absorb(state, bytes.push(byte)) == fnv_step(fnv_absorb(state, bytes), byte),
    decreases bytes.len(),
{
    if bytes.len() == 0 {
        assert(bytes.push(byte)[0] == byte);
        assert(bytes.push(byte).drop_first() =~= Seq::<u8>::empty());
        assert(fnv_absorb(state, bytes.push(byte))
            == fnv_absorb(fnv_step(state, byte), bytes.push(byte).drop_first()));
        assert(fnv_absorb(fnv_step(state, byte), bytes.push(byte).drop_first())
            == fnv_step(state, byte));
        assert(fnv_absorb(state, bytes) == state);
    } else {
        assert(bytes.push(byte)[0] == bytes[0]);
        assert(bytes.push(byte).drop_first() =~= bytes.drop_first().push(byte));
        lemma_fnv_absorb_push(fnv_step(state, bytes[0]), bytes.drop_first(), byte);
    }
}

/// Law: the accumulator is incremental.  Absorbing a concatenation in one go
/// produces the same state as absorbing its two pieces one after the other,
/// so chunked feeding and whole-stream feeding agree on every digest.
pub proof fn lemma_fnv_absorb_concat(state: u64, first: Seq<u8>, second: Seq<u8>)
    ensures
        fnv_absorb(state, first + second) == fnv_absorb(fnv_absorb(state, first), second),
    decreases first.len(),
{
    if first.len() == 0 {
        assert(first + second =~= second);
    } else {
        assert((first + second)[0] == first[0]);
        assert((first + second).drop_first() =~= first.drop_first() + second);
        lemma_fnv_absorb_concat(fnv_step(state, first[0]), first.drop_first(), second);
    }
}

/// An incremental hash strategy: repeated absorb calls followed by one
/// finalize yield the digest of the concatenation of everything absorbed.
/// The digest is a function of the absorbed bytes alone, so byte-identical
/// streams always produce equal digests, whichever way they were chunked.
pub trait ContentHasher: Sized {
    /// The digest this strategy assigns to a complete byte stream.
    spec fn digest_spec(bytes: Seq<u8>) -> u64;

    /// Internal consistency of the accumulator.
    spec fn inv(&self) -> bool;

    /// The bytes absorbed so far.
    spec fn absorbed(&self) -> Seq<u8>;

    /// A fresh accumulator that has absorbed nothing.
    fn start() -> (h: Self)
        ensures
            h.inv(),
            h.absorbed() == Seq::<u8>::empty(),
    ;

    /// Absorb one chunk of the stream.
    fn absorb(&mut self, chunk: &[u8])
        requires
            old(self).inv(),
        ensures
            final(self).inv(),
            final(self).absorbed() == old(self).absorbed() + chunk@,
    ;

    /// The digest of everything absorbed so far.
    fn finalize(&self) -> (digest: u64)
        requires
            self.inv(),
        ensures
            digest == Self::digest_spec(self.absorbed()),
    ;
}

/// The default strategy: 64-bit FNV-1a, favouring throughput over collision
/// resistance, since the use case is change detection.
pub struct Fnv1a64 {
    state: u64,
    bytes_seen: Ghost<Seq<u8>>,
}

impl ContentHasher for Fnv1a64 {
    open spec fn digest_spec(bytes: Seq<u8>) -> u64 {
        fnv_digest(bytes)
    }

    closed spec fn inv(&self) -> bool {
        self.state == fnv_absorb(FNV_OFFSET_BASIS, self.bytes_seen@)
    }

    closed spec fn absorbed(&self) -> Seq<u8> {
        self.bytes_seen@
    }

    fn start() -> (h: Self) {
        Fnv1a64 { state: FNV_OFFSET_BASIS, bytes_seen: Ghost(Seq::empty()) }
    }

    fn absorb(&mut self, chunk: &[u8]) {
        proof {
            assert(self.bytes_seen@ + chunk@.take(0) =~= self.bytes_seen@);
        }
        let mut i: usize = 0;
        while i < chunk.len()
            invariant
                i <= chunk.len(),
                self.bytes_seen == old(self).bytes_seen,
                self.state == fnv_absorb(FNV_OFFSET_BASIS, self.bytes_seen@ + chunk@.take(i as int)),
            decreases chunk.len() - i,
        {
            proof {
                assert(self.bytes_seen@ + chunk@.take(i as int + 1)
                    =~= (self.bytes_seen@ + chunk@.take(i as int)).push(chunk@[i as int]));
                lemma_fnv_absorb_push(
                    FNV_OFFSET_BASIS,
                    self.bytes_seen@ + chunk@.take(i as int),
                    chunk@[i as int],
                );
            }
            self.state = (self.state ^ (chunk[i] as u64)).wrapping_mul(FNV_PRIME);
            i = i + 1;
        }
        proof {
            assert(chunk@.take(chunk@.len() as int) =~= chunk@);
        }
        let ghost prior = self.bytes_seen@;
        self.bytes_seen = Ghost(prior + chunk@);
    }

    fn finalize(&self) -> (digest: u64) {
        self.state
    }
}

/// The digest of an in-memory byte buffer, in one absorb.
pub fn digest_of_bytes<H: ContentHasher>(bytes: &[u8]) -> (digest: u64)
    ensures
        digest == H::digest_spec(bytes@),
{
    let mut h = H::start();
    h.absorb(bytes);
    proof {
        assert(Seq::<u8>::empty() + bytes@ =~= bytes@);
    }
    h.finalize()
}

} // verus!
