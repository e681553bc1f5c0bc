//! FNV-1a hashing of byte strings, the bucket function of the hashing-trick
//! embedder.
use vstd::prelude::*;

verus! {

/// FNV-1a 64-bit offset basis.
pub const FNV_OFFSET_BASIS: u64 = 0xcbf29ce484222325;

/// FNV-1a 64-bit prime.
pub const FNV_PRIME: u64 = 0x100000001b3;

/// One FNV-1a round: xor the byte in, then multiply by the prime modulo 2^64.
pub open spec fn fnv1a_step(h: u64, b: u8) -> u64 {
    (((h ^ (b as u64)) as nat * FNV_PRIME as nat) % 0x1_0000_0000_0000_0000nat) as u64
}

/// FNV-1a of a byte sequence: the offset basis, folded with one round per
/// byte, first byte first.
pub open spec fn spec_fnv1a(bytes: Seq<u8>) -> u64
    decreases bytes.len(),
{
    if bytes.len() == 0 {
        FNV_OFFSET_BASIS
    } else {
        fnv1a_step(spec_fnv1a(bytes.drop_last()), bytes.last())
    }
}

/// 64-bit FNV-1a hash of `bytes`.
pub fn fnv1a(bytes: &[u8]) -> (h: u64)
    ensures
        h == spec_fnv1a(bytes@),
{
    let mut h: u64 = FNV_OFFSET_BASIS;
    let n: usize = bytes.len();
    let mut i: usize = 0;
    while i < n
        invariant
            n == bytes@.len(),
            i <= n,
            h == spec_fnv1a(bytes@.take(i as int)),
        decreases n - i,
    {
        let b: u8 = bytes[i];
        h = (h ^ (b as u64)).wrapping_mul(FNV_PRIME);
        proof {
            assert(bytes@.take(i + 1).drop_last() =~= bytes@.take(i as int));
        }
        i = i + 1;
    }
    proof {
        assert(bytes@.take(n as int) =~= bytes@);
    }
    h
}

} // verus!

verus! {

/// FNV-1a is the fold of one round per byte over the whole input: the hash
/// of no bytes is the offset basis 0xcbf29ce484222325, and appending a byte
/// `b` xors it into the hash of what came before and multiplies by the
/// prime 0x100000001b3 modulo 2^64, whatever the length.
pub proof fn lemma_fnv1a_fold(s: Seq<u8>, b: u8)
    ensures
        spec_fnv1a(Seq::<u8>::empty()) == 0xcbf29ce484222325u64,
        spec_fnv1a(s.push(b)) as nat == ((spec_fnv1a(s) ^ (b as u64)) as nat * 0x100000001b3nat)
            % 0x1_0000_0000_0000_0000nat,
{
    assert(s.push(b).drop_last() =~= s);
}

} // verus!
