//! Content hashing: a 32-bit rolling checksum over decoded audio packet
//! payloads.
//!
//! The checksum follows Adler-32 semantics: two 16-bit running sums modulo
//! 65521, combined into one 32-bit value. It is computed over the
//! concatenation of every decoded packet's raw payload bytes in decode
//! order, so two files with identical audio content but different container
//! wrappers or tags hash identically.

use vstd::prelude::*;

verus! {

/// The modulus of both running sums, the largest prime below 2^16.
pub const ADLER_MOD: u32 = 65521;

/// The pair of running sums after feeding `s` into a hasher whose sums
/// were `a` and `b`. Both inputs and results lie below 65521.
pub open spec fn adler_state(a: int, b: int, s: Seq<u8>) -> (int, int)
    decreases s.len(),
{
    if s.len() == 0 {
        (a, b)
    } else {
        let a2 = (a + s[0]) % 65521;
        let b2 = (b + a2) % 65521;
        adler_state(a2, b2, s.drop_first())
    }
}

/// The Adler-32 checksum of a byte sequence: sums start at (1, 0) and the
/// final value is `b * 2^16 + a`.
pub open spec fn adler32(s: Seq<u8>) -> u32 {
    (adler_state(1, 0, s).1 * 0x10000 + adler_state(1, 0, s).0) as u32
}

/// Feeding `s1 + s2` is the same as feeding `s1` and then `s2`.
pub proof fn lemma_adler_state_concat(a: int, b: int, s1: Seq<u8>, s2: Seq<u8>)
    ensures
        adler_state(a, b, s1 + s2) == adler_state(
            adler_state(a, b, s1).0,
            adler_state(a, b, s1).1,
            s2,
        ),
    decreases s1.len(),
{
    if s1.len() == 0 {
        assert(s1 + s2 =~= s2);
    } else {
        let a2 = (a + s1[0]) % 65521;
        let b2 = (b + a2) % 65521;
        assert((s1 + s2).drop_first() =~= s1.drop_first() + s2);
        lemma_adler_state_concat(a2, b2, s1.drop_first(), s2);
    }
}

/// The running sums stay below the modulus.
pub proof fn lemma_adler_state_bounds(a: int, b: int, s: Seq<u8>)
    requires
        0 <= a < 65521,
        0 <= b < 65521,
    ensures
        0 <= adler_state(a, b, s).0 < 65521,
        0 <= adler_state(a, b, s).1 < 65521,
    decreases s.len(),
{
    if s.len() > 0 {
        let a2 = (a + s[0]) % 65521;
        let b2 = (b + a2) % 65521;
        lemma_adler_state_bounds(a2, b2, s.drop_first());
    }
}

/// An incremental content hasher holding the two running sums.
pub struct ContentHasher {
    a: u32,
    b: u32,
}

impl ContentHasher {
    /// The pair of running sums currently held.
    pub closed spec fn state(self) -> (int, int) {
        (self.a as int, self.b as int)
    }

    /// Both sums lie below the modulus.
    pub closed spec fn wf(self) -> bool {
        self.a < 65521 && self.b < 65521
    }

    /// A fresh hasher: the sums of the empty byte sequence.
    pub fn new() -> (h: ContentHasher)
        ensures
            h.wf(),
            h.state() == adler_state(1, 0, Seq::<u8>::empty()),
    {
        ContentHasher { a: 1, b: 0 }
    }

    /// Feed one packet's payload bytes into the running sums.
    pub fn update(&mut self, data: &[u8])
        requires
            old(self).wf(),
        ensures
            final(self).wf(),
            final(self).state() == adler_state(old(self).state().0, old(self).state().1, data@),
    {
        let ghost a0 = self.a as int;
        let ghost b0 = self.b as int;
        let mut i: usize = 0;
        proof {
            assert(data@.skip(0) =~= data@);
        }
        while i < data.len()
            invariant
                i <= data.len(),
                self.a < 65521,
                self.b < 65521,
                adler_state(a0, b0, data@) == adler_state(
                    self.a as int,
                    self.b as int,
                    data@.skip(i as int),
                ),
            decreases data.len() - i,
        {
            proof {
                assert(data@.skip(i as int)[0] == data@[i as int]);
                assert(data@.skip(i as int).drop_first() =~= data@.skip(i + 1));
            }
            self.a = (self.a + data[i] as u32) % ADLER_MOD;
            self.b = (self.b + self.a) % ADLER_MOD;
            i = i + 1;
        }
        proof {
            assert(data@.skip(data@.len() as int) =~= Seq::<u8>::empty());
        }
    }

    /// Combine the two sums into the 32-bit checksum value.
    pub fn finish(&self) -> (r: u32)
        requires
            self.wf(),
        ensures
            r == (self.state().1 * 0x10000 + self.state().0) as u32,
    {
        self.b * 0x10000 + self.a
    }
}

/// The concatenation of a sequence of packets' payload bytes, in order.
pub open spec fn flatten_bytes(ps: Seq<Vec<u8>>) -> Seq<u8>
    decreases ps.len(),
{
    if ps.len() == 0 {
        Seq::empty()
    } else {
        flatten_bytes(ps.drop_last()) + ps.last()@
    }
}

/// The Adler-32 checksum of the concatenation of `packets`.
pub fn hash_packets(packets: &Vec<Vec<u8>>) -> (r: u32)
    ensures
        r == adler32(flatten_bytes(packets@)),
{
    let mut h = ContentHasher::new();
    let mut i: usize = 0;
    proof {
        assert(flatten_bytes(packets@.take(0)) =~= Seq::<u8>::empty());
    }
    while i < packets.len()
        invariant
            i <= packets.len(),
            h.wf(),
            h.state() == adler_state(1, 0, flatten_bytes(packets@.take(i as int))),
        decreases packets.len() - i,
    {
        let ghost pre = flatten_bytes(packets@.take(i as int));
        h.update(packets[i].as_slice());
        proof {
            assert(packets@.take(i + 1).drop_last() =~= packets@.take(i as int));
            assert(flatten_bytes(packets@.take(i + 1)) == pre + packets@[i as int]@);
            lemma_adler_state_concat(1, 0, pre, packets@[i as int]@);
        }
        i = i + 1;
    }
    proof {
        assert(packets@.take(packets@.len() as int) =~= packets@);
        lemma_adler_state_bounds(1, 0, flatten_bytes(packets@));
    }
    h.finish()
}

} // verus!
