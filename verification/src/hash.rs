//! The width-16 permutation, the sponge that hashes rows with it and the
//! compression that joins two digests.
//!
//! The hash functions are stated for an arbitrary permutation of sixteen limbs, so
//! that they describe any dispatcher; `poseidon2` is the one that Plonky3 ships.
use crate::field::{BabyBear, P};
#[allow(unused_imports)]
use crate::field::{is_canonical, limbs};
use p3_baby_bear::default_babybear_poseidon2_16;
use p3_field::integers::QuotientMap;
use p3_field::PrimeField32;
use p3_symmetric::{
    CryptographicHasher, PaddingFreeSponge, Permutation, PseudoCompressionFunction,
    TruncatedPermutation,
};
use vstd::prelude::*;

verus! {

/// Limbs in a permutation state.
pub const WIDTH: usize = 16;

/// Limbs absorbed by one sponge step.
pub const RATE: usize = 8;

/// Elements in a digest.
pub const DIGEST: usize = 8;

/// A node of the hash tree.
pub type Digest = [BabyBear; 8];

/// What `default_babybear_poseidon2_16().permute_mut` makes of a state of sixteen
/// canonical limbs.
pub uninterp spec fn poseidon2_bb16(state: Seq<u32>) -> Seq<u32>;

/// The Poseidon2 permutation as a function on states.
pub open spec fn poseidon2() -> spec_fn(Seq<u32>) -> Seq<u32> {
    |s: Seq<u32>| poseidon2_bb16(s)
}

/// The state before any input: sixteen zeros.
pub open spec fn zero_state() -> Seq<u32> {
    Seq::new(16, |i: int| 0u32)
}

/// The state whose first limbs are replaced by a chunk of input.
pub open spec fn overwrite(state: Seq<u32>, chunk: Seq<u32>) -> Seq<u32> {
    Seq::new(16, |i: int| if i < chunk.len() { chunk[i] } else { state[i] })
}

/// Chunk `k` of a row: its limbs from `8 * k` on, at most eight of them.
pub open spec fn chunk(row: Seq<u32>, k: int) -> Seq<u32> {
    row.subrange(8 * k, if 8 * k + 8 <= row.len() { 8 * k + 8 } else { row.len() as int })
}

/// The number of chunks that a row of `len` limbs is absorbed in.
pub open spec fn steps(len: nat) -> nat {
    (len + 7) / 8
}

/// The state after `k` sponge steps over a row. Each step overwrites the first limbs
/// with the next chunk and permutes; once the row is used up the state stays put.
pub open spec fn sponge_state(
    p: spec_fn(Seq<u32>) -> Seq<u32>,
    row: Seq<u32>,
    k: nat,
) -> Seq<u32>
    decreases k,
{
    if k == 0 {
        zero_state()
    } else {
        let before = sponge_state(p, row, (k - 1) as nat);
        if 8 * (k - 1) < row.len() {
            p(overwrite(before, chunk(row, k - 1)))
        } else {
            before
        }
    }
}

/// What is permuted, or kept, in step `k` over a row: the state with chunk `k` written
/// into it, or the state itself once the row is used up.
pub open spec fn sponge_input(
    p: spec_fn(Seq<u32>) -> Seq<u32>,
    row: Seq<u32>,
    k: nat,
) -> Seq<u32> {
    if 8 * k < row.len() {
        overwrite(sponge_state(p, row, k), chunk(row, k as int))
    } else {
        sponge_state(p, row, k)
    }
}

/// The digest read off a state: its first eight limbs as field elements.
pub open spec fn squeeze(state: Seq<u32>) -> Seq<u32> {
    Seq::new(8, |i: int| state[i] % P)
}

/// The digest of a row.
pub open spec fn sponge_hash(p: spec_fn(Seq<u32>) -> Seq<u32>, row: Seq<u32>) -> Seq<u32> {
    squeeze(sponge_state(p, row, steps(row.len())))
}

/// The digest of two digests: both halves of one state, permuted and cut to a digest.
pub open spec fn compress(
    p: spec_fn(Seq<u32>) -> Seq<u32>,
    left: Seq<u32>,
    right: Seq<u32>,
) -> Seq<u32> {
    squeeze(p(left + right))
}

/// The canonical limbs of every digest of a layer.
pub open spec fn digests(layer: Seq<Digest>) -> Seq<Seq<u32>> {
    Seq::new(layer.len(), |i: int| limbs(layer[i]@))
}

/// A row that is used up keeps its state through any further steps.
pub proof fn lemma_sponge_settles(p: spec_fn(Seq<u32>) -> Seq<u32>, row: Seq<u32>, k: nat)
    requires
        steps(row.len()) <= k,
    ensures
        sponge_state(p, row, k) == sponge_state(p, row, steps(row.len())),
    decreases k,
{
    if steps(row.len()) < k {
        lemma_sponge_settles(p, row, (k - 1) as nat);
    }
}

/// `default_babybear_poseidon2_16().permute_mut` of `p3_baby_bear` on one state, in
/// and out as limbs: the result is the name `poseidon2_bb16` of the limbs, and every
/// limb of it is canonical, as `as_canonical_u32` returns it.
#[verifier::external_body]
pub(crate) fn permute_state(state: [u32; 16]) -> (r: [u32; 16])
    ensures
        r@ == poseidon2_bb16(state@),
        is_canonical(r@),
{
    let mut s = state.map(|x| p3_baby_bear::BabyBear::from_int(x));
    default_babybear_poseidon2_16().permute_mut(&mut s);
    s.map(|x| x.as_canonical_u32())
}

/// `PaddingFreeSponge::<_, 16, 8, 8>::hash_iter` of `p3_symmetric` over the default
/// Poseidon2 permutation: the row is absorbed eight elements at a time over a zero
/// state, and the digest is the first eight elements of the last state.
#[verifier::external_body]
pub(crate) fn cpu_sponge_hash(row: &[BabyBear]) -> (r: Digest)
    ensures
        limbs(r@) == sponge_hash(poseidon2(), limbs(row@)),
{
    let sponge = PaddingFreeSponge::<_, WIDTH, RATE, DIGEST>::new(default_babybear_poseidon2_16());
    let items = row.iter().map(|x| p3_baby_bear::BabyBear::from_int(x.as_canonical_u32()));
    let digest: [p3_baby_bear::BabyBear; DIGEST] = sponge.hash_iter(items);
    digest.map(|x| BabyBear::from_int(x.as_canonical_u32()))
}

/// `TruncatedPermutation::<_, 2, 8, 16>::compress` of `p3_symmetric` over the default
/// Poseidon2 permutation: both digests fill one state, and the result is the first
/// eight elements of that state permuted.
#[verifier::external_body]
pub(crate) fn cpu_compress(a: Digest, b: Digest) -> (r: Digest)
    ensures
        limbs(r@) == compress(poseidon2(), limbs(a@), limbs(b@)),
{
    let hasher = TruncatedPermutation::<_, 2, DIGEST, WIDTH>::new(default_babybear_poseidon2_16());
    let left = a.map(|x| p3_baby_bear::BabyBear::from_int(x.as_canonical_u32()));
    let right = b.map(|x| p3_baby_bear::BabyBear::from_int(x.as_canonical_u32()));
    hasher.compress([left, right]).map(|x| BabyBear::from_int(x.as_canonical_u32()))
}

} // verus!
