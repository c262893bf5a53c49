//! A hasher for integer keys: the hash of an integer is the integer itself.
use vstd::prelude::*;
use std::collections::HashMap;
use std::hash::{BuildHasherDefault, Hasher};

verus! {

/// What a byte counts at place `i` of a number: 256 to the power of `i`.
pub open spec fn weight(i: nat) -> int
    decreases i,
{
    if i == 0 {
        1
    } else {
        256 * weight((i - 1) as nat)
    }
}

/// The number that `bytes` write, the first byte being the lowest.
pub open spec fn le_value(bytes: Seq<u8>) -> int
    decreases bytes.len(),
{
    if bytes.len() == 0 {
        0
    } else {
        le_value(bytes.drop_last()) + bytes.last() * weight((bytes.len() - 1) as nat)
    }
}

/// Bytes write a number below the weight of the place behind them.
pub proof fn lemma_le_value_bound(bytes: Seq<u8>)
    ensures
        0 <= le_value(bytes) < weight(bytes.len()),
    decreases bytes.len(),
{
    if bytes.len() > 0 {
        lemma_le_value_bound(bytes.drop_last());
        let w = weight((bytes.len() - 1) as nat);
        assert(bytes.last() * w <= 255 * w) by (nonlinear_arith)
            requires
                bytes.last() <= 255,
                w >= 0,
        ;
        assert(bytes.last() * w >= 0) by (nonlinear_arith)
            requires
                bytes.last() >= 0,
                w >= 0,
        ;
    }
}

/// The weights of the eight places of a `u64`, and of the place behind them.
proof fn lemma_weights()
    ensures
        weight(0) == 1,
        weight(1) == 0x100,
        weight(2) == 0x1_0000,
        weight(3) == 0x100_0000,
        weight(4) == 0x1_0000_0000,
        weight(5) == 0x100_0000_0000,
        weight(6) == 0x1_0000_0000_0000,
        weight(7) == 0x100_0000_0000_0000,
        weight(8) == 0x1_0000_0000_0000_0000,
{
    reveal_with_fuel(weight, 10);
}

/// `byte` at place `i` of a number.
fn at_place(byte: u8, i: usize) -> (part: u64)
    requires
        i < 8,
    ensures
        part == byte * weight(i as nat),
{
    let shift: u64 = 8 * (i as u64);
    let wide: u64 = byte as u64;
    let part: u64 = wide << shift;
    proof {
        lemma_weights();
        assert(part == wide * (1u64 << shift)) by (bit_vector)
            requires
                part == wide << shift,
                wide <= 255,
                shift <= 56,
        ;
        assert(1u64 << 0u64 == 1) by (bit_vector);
        assert(1u64 << 8u64 == 0x100) by (bit_vector);
        assert(1u64 << 16u64 == 0x1_0000) by (bit_vector);
        assert(1u64 << 24u64 == 0x100_0000) by (bit_vector);
        assert(1u64 << 32u64 == 0x1_0000_0000) by (bit_vector);
        assert(1u64 << 40u64 == 0x100_0000_0000) by (bit_vector);
        assert(1u64 << 48u64 == 0x1_0000_0000_0000) by (bit_vector);
        assert(1u64 << 56u64 == 0x100_0000_0000_0000) by (bit_vector);
    }
    part
}

/// A hasher that gives back the integer that was written to it.
pub struct IntegerHasher {
    hash: u64,
}

impl IntegerHasher {
    /// The hash as it stands.
    pub closed spec fn value(&self) -> u64 {
        self.hash
    }
}

impl Default for IntegerHasher {
    /// A hasher to which nothing was written.
    fn default() -> (hasher: IntegerHasher)
        ensures
            hasher.value() == 0,
    {
        IntegerHasher { hash: 0 }
    }
}

impl Hasher for IntegerHasher {
    /// The number that was written last, 0 where none was.
    fn finish(&self) -> (hash: u64)
        ensures
            hash == self.value(),
    {
        self.hash
    }

    /// Takes the bytes of an integer, the lowest first. What was written
    /// before is forgotten.
    fn write(&mut self, bytes: &[u8])
        requires
            bytes@.len() <= 8,
        ensures
            final(self).value() == le_value(bytes@),
    {
        let mut hash: u64 = 0;
        let mut i: usize = 0;
        while i < bytes.len()
            invariant
                i <= bytes@.len() <= 8,
                hash == le_value(bytes@.take(i as int)),
            decreases bytes.len() - i,
        {
            let part = at_place(bytes[i], i);
            proof {
                lemma_weights();
                lemma_le_value_bound(bytes@.take(i as int));
                lemma_le_value_bound(bytes@.take(i + 1));
                assert(bytes@.take(i + 1).drop_last() =~= bytes@.take(i as int));
                assert(bytes@.take(i + 1).last() == bytes[i as int]);
                assert(weight((i + 1) as nat) <= weight(8)) by {
                    reveal_with_fuel(weight, 10);
                }
            }
            hash = hash + part;
            i += 1;
        }
        assert(bytes@.take(bytes@.len() as int) =~= bytes@);
        self.hash = hash;
    }
}

/// A hash map whose keys are hashed by `IntegerHasher`.
pub type IntegerHashMap<K, V> = HashMap<K, V, BuildHasherDefault<IntegerHasher>>;

} // verus!
