//! The hash by which complete orders are remembered.

use vstd::prelude::*;

verus! {

/// The modulus of the sequence hash: the largest prime below 2^32.
pub const HASH_MODULUS: u64 = 4294967291;

/// The hash by which a complete order is remembered: from 7, each node
/// index in turn takes the hash to 131 times itself plus the index (reduced
/// by the modulus) plus one, reduced by the modulus.
pub open spec fn sequence_hash(s: Seq<usize>) -> nat
    decreases s.len(),
{
    if s.len() == 0 {
        7
    } else {
        ((sequence_hash(s.drop_last()) * 131 + (s.last() as nat) % (HASH_MODULUS as nat) + 1) % (HASH_MODULUS as nat)) as nat
    }
}

/// The hash never exceeds the modulus.
pub proof fn lemma_hash_bound(s: Seq<usize>)
    ensures
        sequence_hash(s) <= HASH_MODULUS,
    decreases s.len(),
{
    if s.len() > 0 {
        lemma_hash_bound(s.drop_last());
    }
}

/// The hash by which a complete order is remembered.
pub fn hash_sequence(sequence: &Vec<usize>) -> (h: u64)
    ensures
        h == sequence_hash(sequence@),
{
    let mut h: u64 = 7;
    let mut i: usize = 0;
    proof {
        assert(sequence@.take(0) =~= Seq::<usize>::empty());
    }
    while i < sequence.len()
        invariant
            i <= sequence.len(),
            h == sequence_hash(sequence@.take(i as int)),
            h <= HASH_MODULUS,
        decreases sequence.len() - i,
    {
        let x: u64 = sequence[i] as u64;
        proof {
            assert(sequence@.take(i as int + 1).drop_last() =~= sequence@.take(i as int));
            lemma_hash_bound(sequence@.take(i as int + 1));
        }
        h = (h * 131 + x % HASH_MODULUS + 1) % HASH_MODULUS;
        i += 1;
    }
    proof {
        assert(sequence@.take(sequence.len() as int) =~= sequence@);
    }
    h
}

} // verus!
