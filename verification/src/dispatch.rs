//! Batches of permutation states: conversion to and from canonical limbs, and the
//! dispatch that permutes every state of a batch.
//!
//! The functions here permute on the host, with the permutation that the device kernel
//! reproduces limb for limb. Work that is to run on a device is driven from outside,
//! batch by batch, through `commit::CommitRun`, whose contract holds for every
//! permutation that the replies are computed with.
use crate::field::BabyBear;
#[allow(unused_imports)]
use crate::field::{is_canonical, limbs, reduced, P};
use crate::hash::permute_state;
#[allow(unused_imports)]
use crate::hash::{poseidon2, poseidon2_bb16};
use vstd::prelude::*;

verus! {

/// State `k` of a flat batch: limbs `16 * k` up to `16 * k + 16`.
pub open spec fn state_at(flat: Seq<u32>, k: int) -> Seq<u32> {
    flat.subrange(16 * k, 16 * k + 16)
}

/// `out` holds, state by state, what `p` makes of the states of `flat`.
pub open spec fn is_permuted(
    p: spec_fn(Seq<u32>) -> Seq<u32>,
    flat: Seq<u32>,
    out: Seq<u32>,
) -> bool {
    &&& out.len() == flat.len()
    &&& forall|k: int|
        0 <= k && 16 * k + 16 <= flat.len() ==> #[trigger] state_at(out, k) == p(state_at(flat, k))
}

/// Writes the canonical limbs of `state` to `canon`.
pub fn mont_to_canonical(state: &[BabyBear], canon: &mut [u32])
    requires
        state@.len() == old(canon)@.len(),
    ensures
        final(canon)@ == limbs(state@),
        is_canonical(final(canon)@),
{
    let n: usize = state.len();
    for i in 0..n
        invariant
            n == state@.len(),
            canon@.len() == n,
            forall|j: int| 0 <= j < i ==> canon@[j] == state@[j]@ && canon@[j] < P,
    {
        canon[i] = state[i].as_canonical_u32();
    }
}

/// Writes to `out` the elements congruent to the limbs of `canon`.
pub fn canonical_to_mont(canon: &[u32], out: &mut [BabyBear])
    requires
        canon@.len() == old(out)@.len(),
    ensures
        final(out)@.len() == old(out)@.len(),
        limbs(final(out)@) == reduced(canon@),
{
    let n: usize = canon.len();
    for i in 0..n
        invariant
            n == canon@.len(),
            out@.len() == n,
            forall|j: int| 0 <= j < i ==> out@[j]@ == canon@[j] % P,
    {
        out[i] = BabyBear::from_int(canon[i]);
    }
}

/// Copies state `k` out of a flat batch.
fn load_state(flat: &[u32], k: usize) -> (r: [u32; 16])
    requires
        16 * k + 16 <= flat@.len(),
    ensures
        r@ == state_at(flat@, k as int),
{
    let n: usize = flat.len();
    let mut r: [u32; 16] = [0u32; 16];
    for i in 0usize..16
        invariant
            n == flat@.len(),
            16 * k + 16 <= n,
            forall|j: int| 0 <= j < i ==> r@[j] == flat@[16 * k + j],
    {
        r[i] = flat[16 * k + i];
    }
    assert(r@ =~= state_at(flat@, k as int));
    r
}

/// Writes one state over state `k` of a flat batch.
fn store_state(flat: &mut [u32], k: usize, state: [u32; 16])
    requires
        16 * k + 16 <= old(flat)@.len(),
    ensures
        final(flat)@.len() == old(flat)@.len(),
        state_at(final(flat)@, k as int) == state@,
        forall|j: int|
            0 <= j < old(flat)@.len() && !(16 * k <= j < 16 * k + 16) ==> final(flat)@[j] == old(
                flat,
            )@[j],
{
    let n: usize = flat.len();
    let ghost before = flat@;
    for i in 0usize..16
        invariant
            n == flat@.len(),
            16 * k + 16 <= n,
            n == before.len(),
            forall|j: int| 0 <= j < i ==> flat@[16 * k + j] == state@[j],
            forall|j: int|
                0 <= j < before.len() && !(16 * k <= j < 16 * k + 16) ==> flat@[j] == before[j],
    {
        flat[16 * k + i] = state[i];
    }
    assert(state_at(flat@, k as int) =~= state@);
}

/// Permutes every state of `canon_in` into `canon_out` and returns the exit code of the
/// dispatch, zero for success. The limbs written are canonical.
pub fn raw_gpu_call(canon_in: &[u32], canon_out: &mut [u32]) -> (rc: i32)
    requires
        canon_in@.len() == old(canon_out)@.len(),
        canon_in@.len() % 16 == 0,
    ensures
        rc == 0,
        is_permuted(poseidon2(), canon_in@, final(canon_out)@),
        is_canonical(final(canon_out)@),
{
    let n: usize = canon_in.len() / 16;
    for k in 0..n
        invariant
            n == canon_in@.len() / 16,
            canon_in@.len() % 16 == 0,
            canon_out@.len() == canon_in@.len(),
            forall|j: int|
                0 <= j < k ==> #[trigger] state_at(canon_out@, j) == poseidon2_bb16(
                    state_at(canon_in@, j),
                ),
            forall|i: int| 0 <= i < 16 * k ==> canon_out@[i] < P,
    {
        let ghost before = canon_out@;
        let permuted = permute_state(load_state(canon_in, k));
        store_state(canon_out, k, permuted);
        assert forall|j: int| 0 <= j < k + 1 implies #[trigger] state_at(canon_out@, j)
            == poseidon2_bb16(state_at(canon_in@, j)) by {
            if j < k {
                assert(state_at(canon_out@, j) =~= state_at(before, j));
            }
        }
        assert forall|i: int| 0 <= i < 16 * (k + 1) implies canon_out@[i] < P by {
            if i >= 16 * k {
                assert(state_at(canon_out@, k as int)[i - 16 * k] == permuted@[i - 16 * k]);
            }
        }
    }
    0
}

/// Permutes every state of `state` into `out`, through canonical limbs.
pub fn permute_batch(state: &[BabyBear], out: &mut [BabyBear])
    requires
        state@.len() == old(out)@.len(),
        state@.len() % 16 == 0,
    ensures
        final(out)@.len() == old(out)@.len(),
        forall|k: int|
            0 <= k && 16 * k + 16 <= state@.len() ==> #[trigger] state_at(limbs(final(out)@), k)
                == poseidon2_bb16(state_at(limbs(state@), k)),
{
    let mut session = Poseidon2GpuSession::new();
    session.permute_batch(state, out);
}

/// `after` goes on from `before` by `n` batches.
pub open spec fn adds(before: Seq<Seq<u32>>, after: Seq<Seq<u32>>, n: nat) -> bool {
    &&& after.len() == before.len() + n
    &&& after.take(before.len() as int) =~= before
}

/// A dispatcher that permutes batches one after the other.
#[derive(Clone, Copy)]
pub struct Poseidon2GpuSession {
    batches: Ghost<Seq<Seq<u32>>>,
}

impl Poseidon2GpuSession {
    /// The batches dispatched so far, in order.
    pub closed spec fn dispatched(self) -> Seq<Seq<u32>> {
        self.batches@
    }

    /// A session that has dispatched nothing.
    pub fn new() -> (r: Poseidon2GpuSession)
        ensures
            r.dispatched() == Seq::<Seq<u32>>::empty(),
    {
        Poseidon2GpuSession { batches: Ghost(Seq::empty()) }
    }

    /// Permutes every state of a batch of canonical limbs and returns the exit code of
    /// the dispatch, zero for success. Where there are no states nothing is dispatched.
    pub fn permute_batch_canonical(&mut self, state: &[u32], out: &mut [u32]) -> (rc: i32)
        requires
            state@.len() == old(out)@.len(),
            state@.len() % 16 == 0,
        ensures
            rc == 0,
            is_permuted(poseidon2(), state@, final(out)@),
            is_canonical(final(out)@),
            final(self).dispatched() == if state@.len() == 0 {
                old(self).dispatched()
            } else {
                old(self).dispatched().push(state@)
            },
    {
        if state.len() == 0 {
            return 0;
        }
        proof {
            self.batches@ = self.batches@.push(state@);
        }
        raw_gpu_call(state, out)
    }

    /// Permutes every state of a batch of field elements. Where there are no states
    /// nothing is dispatched.
    pub fn permute_batch(&mut self, state: &[BabyBear], out: &mut [BabyBear])
        requires
            state@.len() == old(out)@.len(),
            state@.len() % 16 == 0,
        ensures
            final(out)@.len() == old(out)@.len(),
            forall|k: int|
                0 <= k && 16 * k + 16 <= state@.len() ==> #[trigger] state_at(
                    limbs(final(out)@),
                    k,
                ) == poseidon2_bb16(state_at(limbs(state@), k)),
            final(self).dispatched() == if state@.len() == 0 {
                old(self).dispatched()
            } else {
                old(self).dispatched().push(limbs(state@))
            },
    {
        let n: usize = state.len();
        let mut canon_in: Vec<u32> = vec![0u32; n];
        let mut canon_out: Vec<u32> = vec![0u32; n];
        mont_to_canonical(state, canon_in.as_mut_slice());
        let rc: i32 = self.permute_batch_canonical(canon_in.as_slice(), canon_out.as_mut_slice());
        assert(rc == 0);
        canonical_to_mont(canon_out.as_slice(), out);
        assert(limbs(out@) =~= canon_out@);
    }
}

} // verus!
