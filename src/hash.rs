//! A deliberately tiny hash function for targets without a standard hasher:
//! every byte is XOR-folded into the state, which is then rotated.
use core::hash::{BuildHasher, Hasher};
use vstd::prelude::*;

verus! {

/// Rotates a 64-bit word left by five bits.
pub open spec fn rotl5(x: u64) -> u64 {
    (x << 5u64) | (x >> 59u64)
}

/// One mixing step: fold a byte into the state, then rotate.
pub open spec fn mix(state: u64, byte: u8) -> u64 {
    rotl5(state ^ (byte as u64))
}

/// The state reached from `state` after mixing in `bytes` in order.
pub open spec fn mix_all(state: u64, bytes: Seq<u8>) -> u64
    decreases bytes.len(),
{
    if bytes.len() == 0 {
        state
    } else {
        mix(mix_all(state, bytes.drop_last()), bytes.last())
    }
}

#[derive(Default)]
pub struct NaiveXORHasher {
    pub state: u64,
}

impl NaiveXORHasher {
    /// Mixes one byte into `state`.
    pub fn mix_byte(state: u64, byte: u8) -> (r: u64)
        ensures
            r == mix(state, byte),
    {
        let x = state ^ (byte as u64);
        (x << 5u64) | (x >> 59u64)
    }
}

impl Hasher for NaiveXORHasher {
    fn write(&mut self, bytes: &[u8])
        ensures
            final(self).state == mix_all(old(self).state, bytes@),
    {
        let ghost start = self.state;
        let mut i: usize = 0;
        while i < bytes.len()
            invariant
                0 <= i <= bytes@.len(),
                self.state == mix_all(start, bytes@.take(i as int)),
            decreases bytes@.len() - i,
        {
            proof {
                assert(bytes@.take(i + 1).drop_last() =~= bytes@.take(i as int));
            }
            self.state = Self::mix_byte(self.state, bytes[i]);
            i = i + 1;
        }
        proof {
            assert(bytes@.take(i as int) =~= bytes@);
        }
    }

    fn finish(&self) -> (r: u64)
        ensures
            r == self.state,
    {
        self.state
    }
}

/// Builds fresh [`NaiveXORHasher`]s, all starting from a zero state.
#[derive(Default)]
pub struct NaiveXORHasherBuilder;

impl BuildHasher for NaiveXORHasherBuilder {
    type Hasher = NaiveXORHasher;

    fn build_hasher(&self) -> (r: NaiveXORHasher)
        ensures
            r.state == 0,
    {
        NaiveXORHasher { state: 0 }
    }
}

} // verus!
