//! Hashing many rows, or compressing many digests, one batch of permutations at a time.
use crate::dispatch::Poseidon2GpuSession;
#[allow(unused_imports)]
use crate::dispatch::{adds, is_permuted, state_at};
use crate::field::BabyBear;
#[allow(unused_imports)]
use crate::field::{is_canonical, limbs, P};
use crate::gpu_merkle::copy_rows;
use crate::hash::Digest;
#[allow(unused_imports)]
use crate::hash::{
    chunk, compress, digests, lemma_sponge_settles, overwrite, poseidon2, sponge_hash,
    sponge_input, sponge_state, squeeze, steps, zero_state,
};
use vstd::prelude::*;

verus! {

/// The canonical limbs of every row.
pub open spec fn row_limbs(rows: Seq<Vec<BabyBear>>) -> Seq<Seq<u32>> {
    Seq::new(rows.len(), |i: int| limbs(rows[i]@))
}

/// The digest of every row.
pub open spec fn hashed(
    p: spec_fn(Seq<u32>) -> Seq<u32>,
    rows: Seq<Seq<u32>>,
) -> Seq<Seq<u32>> {
    Seq::new(rows.len(), |i: int| sponge_hash(p, rows[i]))
}

/// The layer above: every two consecutive digests compressed. A last odd one is left out.
pub open spec fn halved(
    p: spec_fn(Seq<u32>) -> Seq<u32>,
    layer: Seq<Seq<u32>>,
) -> Seq<Seq<u32>> {
    Seq::new(layer.len() / 2, |i: int| compress(p, layer[2 * i], layer[2 * i + 1]))
}

/// Two layers of one length compressed digest by digest.
pub open spec fn paired(
    p: spec_fn(Seq<u32>) -> Seq<u32>,
    a: Seq<Seq<u32>>,
    b: Seq<Seq<u32>>,
) -> Seq<Seq<u32>> {
    Seq::new(a.len(), |i: int| compress(p, a[i], b[i]))
}

/// The largest length among the rows, zero where there are none.
pub open spec fn longest(rows: Seq<Seq<u32>>) -> nat
    decreases rows.len(),
{
    if rows.len() == 0 {
        0
    } else {
        let rest = longest(rows.drop_last());
        if rows.last().len() > rest {
            rows.last().len()
        } else {
            rest
        }
    }
}

/// No row is longer than the longest.
pub proof fn lemma_longest(rows: Seq<Seq<u32>>, i: int)
    requires
        0 <= i < rows.len(),
    ensures
        rows[i].len() <= longest(rows),
    decreases rows.len(),
{
    if i < rows.len() - 1 {
        lemma_longest(rows.drop_last(), i);
    }
}

/// The batch that step `k` of hashing `rows` dispatches: one state per row.
pub open spec fn is_sponge_batch(
    p: spec_fn(Seq<u32>) -> Seq<u32>,
    rows: Seq<Seq<u32>>,
    k: nat,
    flat: Seq<u32>,
) -> bool {
    &&& flat.len() == 16 * rows.len()
    &&& forall|i: int|
        0 <= i < rows.len() ==> #[trigger] state_at(flat, i) == sponge_input(p, rows[i], k)
}

/// The batch that compresses every two consecutive digests of a layer.
pub open spec fn is_halving_batch(layer: Seq<Seq<u32>>, flat: Seq<u32>) -> bool {
    &&& flat.len() == 16 * (layer.len() / 2)
    &&& forall|i: int|
        0 <= i < layer.len() / 2 ==> #[trigger] state_at(flat, i) == layer[2 * i] + layer[2 * i
            + 1]
}

/// The batch that compresses two layers digest by digest.
pub open spec fn is_pairing_batch(
    a: Seq<Seq<u32>>,
    b: Seq<Seq<u32>>,
    flat: Seq<u32>,
) -> bool {
    &&& flat.len() == 16 * a.len()
    &&& forall|i: int| 0 <= i < a.len() ==> #[trigger] state_at(flat, i) == a[i] + b[i]
}

/// Appends the eight limbs of a digest.
fn push_digest(flat: &mut Vec<u32>, d: &Digest)
    ensures
        final(flat)@ == old(flat)@ + limbs(d@),
        is_canonical(limbs(d@)),
{
    let ghost before = flat@;
    for j in 0usize..8
        invariant
            flat@ == before + limbs(d@).take(j as int),
            forall|i: int| 0 <= i < j ==> #[trigger] limbs(d@)[i] < P,
    {
        flat.push(d[j].as_canonical_u32());
        assert(limbs(d@).take(j + 1) =~= limbs(d@).take(j as int).push(d@[j as int]@));
    }
    assert(limbs(d@).take(8) =~= limbs(d@));
}

/// Appending a state to a flat batch keeps the states before it.
proof fn lemma_push_state(flat: Seq<u32>, state: Seq<u32>, n: int)
    requires
        flat.len() == 16 * n,
        state.len() == 16,
    ensures
        state_at(flat + state, n) == state,
        forall|i: int| 0 <= i < n ==> #[trigger] state_at(flat + state, i) == state_at(flat, i),
{
    assert(state_at(flat + state, n) =~= state);
    assert forall|i: int| 0 <= i < n implies #[trigger] state_at(flat + state, i) == state_at(
        flat,
        i,
    ) by {
        assert(state_at(flat + state, i) =~= state_at(flat, i));
    }
}

/// The batch that compresses every two consecutive digests of `layer`.
pub fn pack_halving(layer: &[Digest]) -> (r: Vec<u32>)
    ensures
        is_halving_batch(digests(layer@), r@),
        is_canonical(r@),
{
    let n: usize = layer.len();
    let half: usize = n / 2;
    let mut flat: Vec<u32> = Vec::new();
    for i in 0..half
        invariant
            n == layer@.len(),
            half == n / 2,
            flat@.len() == 16 * i,
            is_canonical(flat@),
            forall|j: int|
                0 <= j < i ==> #[trigger] state_at(flat@, j) == digests(layer@)[2 * j] + digests(
                    layer@,
                )[2 * j + 1],
    {
        let ghost before = flat@;
        push_digest(&mut flat, &layer[2 * i]);
        push_digest(&mut flat, &layer[2 * i + 1]);
        proof {
            let state = digests(layer@)[2 * i] + digests(layer@)[2 * i + 1];
            assert(flat@ =~= before + state);
            lemma_push_state(before, state, i as int);
        }
    }
    flat
}

/// The batch that compresses `a` and `b` digest by digest.
pub fn pack_pairing(a: &[Digest], b: &[Digest]) -> (r: Vec<u32>)
    requires
        a@.len() == b@.len(),
    ensures
        is_pairing_batch(digests(a@), digests(b@), r@),
        is_canonical(r@),
{
    let n: usize = a.len();
    let mut flat: Vec<u32> = Vec::new();
    for i in 0..n
        invariant
            n == a@.len(),
            n == b@.len(),
            flat@.len() == 16 * i,
            is_canonical(flat@),
            forall|j: int|
                0 <= j < i ==> #[trigger] state_at(flat@, j) == digests(a@)[j] + digests(b@)[j],
    {
        let ghost before = flat@;
        push_digest(&mut flat, &a[i]);
        push_digest(&mut flat, &b[i]);
        proof {
            let state = digests(a@)[i as int] + digests(b@)[i as int];
            assert(flat@ =~= before + state);
            lemma_push_state(before, state, i as int);
        }
    }
    flat
}

/// The digest read off state `k` of a flat batch.
fn squeeze_at(flat: &[u32], k: usize) -> (r: Digest)
    requires
        16 * k + 16 <= flat@.len(),
    ensures
        limbs(r@) == squeeze(state_at(flat@, k as int)),
{
    let n: usize = flat.len();
    assert(16 * k + 16 <= n);
    let o: usize = 16 * k;
    let r: Digest = [
        BabyBear::from_int(flat[o]),
        BabyBear::from_int(flat[o + 1]),
        BabyBear::from_int(flat[o + 2]),
        BabyBear::from_int(flat[o + 3]),
        BabyBear::from_int(flat[o + 4]),
        BabyBear::from_int(flat[o + 5]),
        BabyBear::from_int(flat[o + 6]),
        BabyBear::from_int(flat[o + 7]),
    ];
    assert(limbs(r@) =~= squeeze(state_at(flat@, k as int)));
    r
}

/// The digest read off every state of a flat batch.
pub fn unpack(flat: &[u32]) -> (r: Vec<Digest>)
    requires
        flat@.len() % 16 == 0,
    ensures
        r@.len() == flat@.len() / 16,
        forall|k: int|
            0 <= k < r@.len() ==> #[trigger] digests(r@)[k] == squeeze(state_at(flat@, k)),
{
    let n: usize = flat.len() / 16;
    let mut r: Vec<Digest> = Vec::new();
    for k in 0..n
        invariant
            n == flat@.len() / 16,
            flat@.len() % 16 == 0,
            r@.len() == k,
            forall|j: int| 0 <= j < k ==> limbs(#[trigger] r@[j]@) == squeeze(state_at(flat@, j)),
    {
        r.push(squeeze_at(flat, k));
    }
    r
}

/// Rows on their way through the sponge, one batch of permutations per step.
pub struct SpongeBatch {
    rows: Vec<Vec<BabyBear>>,
    total: usize,
    step: usize,
    flat: Vec<u32>,
}

impl SpongeBatch {
    /// The rows that are hashed.
    pub closed spec fn rows(self) -> Seq<Seq<u32>> {
        row_limbs(self.rows@)
    }

    /// The number of steps taken.
    pub closed spec fn step(self) -> nat {
        self.step as nat
    }

    /// The states as they stand: the batch of the next step, or the last states.
    pub closed spec fn flat(self) -> Seq<u32> {
        self.flat@
    }

    /// Steps are counted up to the number that the longest row needs, over one state per row.
    pub closed spec fn wf(self) -> bool {
        &&& self.step <= self.total
        &&& self.total == steps(longest(self.rows()))
        &&& longest(self.rows()) <= usize::MAX
        &&& self.flat@.len() == 16 * self.rows@.len()
    }

    /// The number of steps that the rows need.
    pub open spec fn total(self) -> nat {
        steps(longest(self.rows()))
    }

    /// The states are those that `p` gives.
    pub open spec fn tracks(self, p: spec_fn(Seq<u32>) -> Seq<u32>) -> bool {
        is_sponge_batch(p, self.rows(), self.step(), self.flat())
    }

    /// Starts on `rows` with every state zero and the first chunks written.
    pub fn new(rows: Vec<Vec<BabyBear>>) -> (r: SpongeBatch)
        ensures
            r.wf(),
            r.rows() == row_limbs(rows@),
            r.step() == 0,
            is_canonical(r.flat()),
            forall|p: spec_fn(Seq<u32>) -> Seq<u32>| #[trigger] r.tracks(p),
    {
        let n: usize = rows.len();
        let mut max_len: usize = 0;
        let mut flat: Vec<u32> = Vec::new();
        let ghost limbed = row_limbs(rows@);
        for i in 0..n
            invariant
                n == rows@.len(),
                limbed == row_limbs(rows@),
                max_len == longest(limbed.take(i as int)),
                flat@.len() == 16 * i,
                forall|j: int| 0 <= j < flat@.len() ==> flat@[j] == 0,
        {
            assert(limbed.take(i + 1).drop_last() =~= limbed.take(i as int));
            if rows[i].len() > max_len {
                max_len = rows[i].len();
            }
            for j in 0usize..16
                invariant
                    flat@.len() == 16 * i + j,
                    forall|l: int| 0 <= l < flat@.len() ==> flat@[l] == 0,
            {
                flat.push(0);
            }
        }
        assert(limbed.take(n as int) =~= limbed);
        let total: usize = if max_len % 8 == 0 {
            max_len / 8
        } else {
            max_len / 8 + 1
        };
        let mut r = SpongeBatch { rows, total, step: 0, flat };
        assert forall|i: int| 0 <= i < n implies #[trigger] state_at(r.flat@, i)
            == zero_state() by {
            assert(state_at(r.flat@, i) =~= zero_state());
        }
        r.write_chunks();
        r
    }

    /// Writes the next chunk of every row that has one into its state.
    fn write_chunks(&mut self)
        requires
            old(self).wf(),
        ensures
            final(self).wf(),
            final(self).rows@ == old(self).rows@,
            final(self).step == old(self).step,
            final(self).flat@.len() == old(self).flat@.len(),
            is_canonical(old(self).flat@) ==> is_canonical(final(self).flat@),
            forall|i: int|
                0 <= i < old(self).rows@.len() ==> #[trigger] state_at(final(self).flat@, i) == if 8
                    * old(self).step < old(self).rows()[i].len() {
                    overwrite(
                        state_at(old(self).flat@, i),
                        chunk(old(self).rows()[i], old(self).step as int),
                    )
                } else {
                    state_at(old(self).flat@, i)
                },
    {
        let ghost before = self.flat@;
        let ghost me = *self;
        let n: usize = self.rows.len();
        if self.step == self.total {
            proof {
                assert forall|i: int| 0 <= i < n implies 8 * me.step >= #[trigger] me.rows()[i].len() by {
                    lemma_longest(me.rows(), i);
                }
            }
            return;
        }
        let pos: usize = 8 * self.step;
        for i in 0..n
            invariant
                n == self.rows@.len(),
                pos == 8 * self.step,
                self.rows@ == me.rows@,
                self.step == me.step,
                self.total == me.total,
                self.flat@.len() == 16 * n,
                before.len() == 16 * n,
                before == me.flat@,
                is_canonical(before) ==> is_canonical(self.flat@),
                forall|j: int| 16 * i <= j < 16 * n ==> self.flat@[j] == before[j],
                forall|j: int|
                    0 <= j < i ==> #[trigger] state_at(self.flat@, j) == if 8 * me.step
                        < me.rows()[j].len() {
                        overwrite(state_at(before, j), chunk(me.rows()[j], me.step as int))
                    } else {
                        state_at(before, j)
                    },
        {
            let ghost at_row = self.flat@;
            let len: usize = self.rows[i].len();
            if pos < len {
                let count: usize = if len - pos < 8 {
                    len - pos
                } else {
                    8
                };
                let flat_len: usize = self.flat.len();
                for j in 0..count
                    invariant
                        i < n,
                        n == self.rows@.len(),
                        self.rows@ == me.rows@,
                        self.step == me.step,
                        self.total == me.total,
                        len == self.rows@[i as int]@.len(),
                        count <= 8,
                        pos + count <= len,
                        flat_len == 16 * n,
                        self.flat@.len() == 16 * n,
                        at_row.len() == 16 * n,
                        is_canonical(at_row) ==> is_canonical(self.flat@),
                        forall|l: int|
                            0 <= l < 16 * n && !(16 * i <= l < 16 * i + j) ==> self.flat@[l]
                                == at_row[l],
                        forall|l: int|
                            16 * i <= l < 16 * i + j ==> #[trigger] self.flat@[l]
                                == self.rows@[i as int]@[pos + l - 16 * i]@,
                {
                    let limb: u32 = self.rows[i][pos + j].as_canonical_u32();
                    self.flat[16 * i + j] = limb;
                }
                assert(state_at(self.flat@, i as int) =~= overwrite(
                    state_at(before, i as int),
                    chunk(me.rows()[i as int], me.step as int),
                ));
            } else {
                assert(state_at(self.flat@, i as int) =~= state_at(before, i as int));
            }
            assert forall|j: int| 0 <= j < i implies #[trigger] state_at(self.flat@, j) == state_at(
                at_row,
                j,
            ) by {
                assert(state_at(self.flat@, j) =~= state_at(at_row, j));
            }
        }
    }

    /// Whether every row is used up.
    pub fn is_settled(&self) -> (r: bool)
        requires
            self.wf(),
        ensures
            r == (self.step() == self.total()),
            !r ==> self.step() < self.total(),
    {
        self.step == self.total
    }

    /// The batch of the next step.
    pub fn batch(&self) -> (r: &[u32])
        requires
            self.wf(),
        ensures
            r@ == self.flat(),
            r@.len() == 16 * self.rows().len(),
    {
        self.flat.as_slice()
    }

    /// Takes the permuted batch: rows that are not used up continue from their permuted
    /// state, the others keep theirs.
    pub fn accept(&mut self, out: &[u32])
        requires
            old(self).wf(),
            old(self).step() < old(self).total(),
            out@.len() == old(self).flat().len(),
        ensures
            final(self).wf(),
            final(self).rows() == old(self).rows(),
            final(self).step() == old(self).step() + 1,
            is_canonical(old(self).flat()) && is_canonical(out@) ==> is_canonical(
                final(self).flat(),
            ),
            forall|p: spec_fn(Seq<u32>) -> Seq<u32>|
                #![trigger final(self).tracks(p)]
                old(self).tracks(p) && is_permuted(p, old(self).flat(), out@)
                    ==> final(self).tracks(p),
    {
        let ghost me = *self;
        let n: usize = self.rows.len();
        let pos: usize = 8 * self.step;
        for i in 0..n
            invariant
                n == self.rows@.len(),
                pos == 8 * self.step,
                self.rows@ == me.rows@,
                self.step == me.step,
                self.total == me.total,
                self.flat@.len() == 16 * n,
                me.flat@.len() == 16 * n,
                out@.len() == 16 * n,
                is_canonical(me.flat@) && is_canonical(out@) ==> is_canonical(self.flat@),
                forall|j: int| 16 * i <= j < 16 * n ==> self.flat@[j] == me.flat@[j],
                forall|j: int|
                    0 <= j < i ==> #[trigger] state_at(self.flat@, j) == if 8 * me.step
                        < me.rows()[j].len() {
                        state_at(out@, j)
                    } else {
                        state_at(me.flat@, j)
                    },
        {
            let ghost at_row = self.flat@;
            if pos < self.rows[i].len() {
                let flat_len: usize = self.flat.len();
                for j in 0usize..16
                    invariant
                        i < n,
                        n == self.rows@.len(),
                        self.rows@ == me.rows@,
                        self.step == me.step,
                        self.total == me.total,
                        flat_len == 16 * n,
                        self.flat@.len() == 16 * n,
                        at_row.len() == 16 * n,
                        out@.len() == 16 * n,
                        is_canonical(at_row) && is_canonical(out@) ==> is_canonical(self.flat@),
                        forall|l: int|
                            0 <= l < 16 * n && !(16 * i <= l < 16 * i + j) ==> self.flat@[l]
                                == at_row[l],
                        forall|l: int|
                            16 * i <= l < 16 * i + j ==> #[trigger] self.flat@[l] == out@[l],
                {
                    self.flat[16 * i + j] = out[16 * i + j];
                }
                assert(state_at(self.flat@, i as int) =~= state_at(out@, i as int));
            } else {
                assert(state_at(self.flat@, i as int) =~= state_at(me.flat@, i as int));
            }
            assert forall|j: int| 0 <= j < i implies #[trigger] state_at(self.flat@, j) == state_at(
                at_row,
                j,
            ) by {
                assert(state_at(self.flat@, j) =~= state_at(at_row, j));
            }
        }
        self.step = self.step + 1;
        let ghost taken = *self;
        self.write_chunks();
        proof {
            assert forall|p: spec_fn(Seq<u32>) -> Seq<u32>|
                me.tracks(p) && is_permuted(p, me.flat(), out@) implies #[trigger] self.tracks(
                p,
            ) by {
                assert forall|i: int| 0 <= i < n implies #[trigger] state_at(self.flat@, i)
                    == sponge_input(p, self.rows()[i], self.step()) by {
                    let row = me.rows()[i];
                    assert(state_at(me.flat@, i) == sponge_input(p, row, me.step()));
                    assert(state_at(out@, i) == p(state_at(me.flat@, i)));
                    assert(state_at(taken.flat@, i) == sponge_state(p, row, self.step()));
                }
            }
        }
    }

    /// The digest of every row, once all are used up.
    pub fn digests(&self) -> (r: Vec<Digest>)
        requires
            self.wf(),
            self.step() == self.total(),
        ensures
            r@.len() == self.rows().len(),
            forall|p: spec_fn(Seq<u32>) -> Seq<u32>| #[trigger]
                self.tracks(p) ==> digests(r@) == hashed(p, self.rows()),
    {
        let r = unpack(self.flat.as_slice());
        proof {
            assert forall|p: spec_fn(Seq<u32>) -> Seq<u32>| #[trigger]
                self.tracks(p) implies digests(r@) == hashed(p, self.rows()) by {
                assert forall|i: int| 0 <= i < r@.len() implies digests(r@)[i] == hashed(
                    p,
                    self.rows(),
                )[i] by {
                    lemma_longest(self.rows(), i);
                    lemma_sponge_settles(p, self.rows()[i], self.step());
                    assert(state_at(self.flat@, i) == sponge_input(
                        p,
                        self.rows()[i],
                        self.step(),
                    ));
                }
                assert(digests(r@) =~= hashed(p, self.rows()));
            }
        }
        r
    }
}

/// A permuted halving batch holds the layer above.
pub proof fn lemma_halved(
    p: spec_fn(Seq<u32>) -> Seq<u32>,
    layer: Seq<Seq<u32>>,
    flat: Seq<u32>,
    out: Seq<u32>,
    r: Seq<Seq<u32>>,
)
    requires
        is_halving_batch(layer, flat),
        is_permuted(p, flat, out),
        r.len() == layer.len() / 2,
        forall|k: int| 0 <= k < r.len() ==> #[trigger] r[k] == squeeze(state_at(out, k)),
    ensures
        r == halved(p, layer),
{
    assert forall|k: int| 0 <= k < r.len() implies r[k] == halved(p, layer)[k] by {
        assert(state_at(out, k) == p(state_at(flat, k)));
    }
    assert(r =~= halved(p, layer));
}

/// A permuted pairing batch holds the two layers compressed.
pub proof fn lemma_paired(
    p: spec_fn(Seq<u32>) -> Seq<u32>,
    a: Seq<Seq<u32>>,
    b: Seq<Seq<u32>>,
    flat: Seq<u32>,
    out: Seq<u32>,
    r: Seq<Seq<u32>>,
)
    requires
        is_pairing_batch(a, b, flat),
        is_permuted(p, flat, out),
        r.len() == a.len(),
        forall|k: int| 0 <= k < r.len() ==> #[trigger] r[k] == squeeze(state_at(out, k)),
    ensures
        r == paired(p, a, b),
{
    assert forall|k: int| 0 <= k < r.len() implies r[k] == paired(p, a, b)[k] by {
        assert(state_at(out, k) == p(state_at(flat, k)));
    }
    assert(r =~= paired(p, a, b));
}

/// Permutes a flat batch through a session.
pub(crate) fn permuted(session: &mut Poseidon2GpuSession, flat: &[u32]) -> (out: Vec<u32>)
    requires
        flat@.len() % 16 == 0,
        flat@.len() > 0,
    ensures
        is_permuted(poseidon2(), flat@, out@),
        is_canonical(out@),
        final(session).dispatched() == old(session).dispatched().push(flat@),
{
    let mut out: Vec<u32> = vec![0u32; flat.len()];
    let rc: i32 = session.permute_batch_canonical(flat, out.as_mut_slice());
    assert(rc == 0);
    out
}

/// Hashes every row. Rows may differ in length: a row that is used up keeps its state
/// while the longer ones go on. Each step of the longest row is one batch with a state
/// for every row.
pub fn batched_sponge_hash(
    session: &mut Poseidon2GpuSession,
    inputs: &[Vec<BabyBear>],
) -> (r: Vec<Digest>)
    ensures
        digests(r@) == hashed(poseidon2(), row_limbs(inputs@)),
        adds(
            old(session).dispatched(),
            final(session).dispatched(),
            steps(longest(row_limbs(inputs@))),
        ),
        forall|j: int|
            old(session).dispatched().len() <= j < final(session).dispatched().len() ==> {
                &&& is_sponge_batch(
                    poseidon2(),
                    row_limbs(inputs@),
                    (j - old(session).dispatched().len()) as nat,
                    #[trigger] final(session).dispatched()[j],
                )
                &&& is_canonical(final(session).dispatched()[j])
            },
{
    let ghost rows = row_limbs(inputs@);
    let ghost before = session.dispatched();
    let mut sponge = SpongeBatch::new(copy_rows(inputs));
    while !sponge.is_settled()
        invariant
            sponge.wf(),
            sponge.rows() == rows,
            sponge.tracks(poseidon2()),
            is_canonical(sponge.flat()),
            adds(before, session.dispatched(), sponge.step()),
            forall|j: int|
                before.len() <= j < session.dispatched().len() ==> {
                    &&& is_sponge_batch(
                        poseidon2(),
                        rows,
                        (j - before.len()) as nat,
                        #[trigger] session.dispatched()[j],
                    )
                    &&& is_canonical(session.dispatched()[j])
                },
        ensures
            sponge.step() == sponge.total(),
        decreases sponge.total() - sponge.step(),
    {
        let ghost sent = session.dispatched();
        let out = permuted(session, sponge.batch());
        assert(session.dispatched().take(before.len() as int) =~= sent.take(before.len() as int));
        sponge.accept(out.as_slice());
    }
    assert(sponge.tracks(poseidon2()));
    sponge.digests()
}

/// Compresses every two consecutive digests of a layer, as one batch. Where there are no
/// two digests nothing is dispatched.
pub fn batched_binary_compress(
    session: &mut Poseidon2GpuSession,
    layer: &[Digest],
) -> (r: Vec<Digest>)
    ensures
        digests(r@) == halved(poseidon2(), digests(layer@)),
        if layer@.len() < 2 {
            final(session).dispatched() == old(session).dispatched()
        } else {
            &&& adds(old(session).dispatched(), final(session).dispatched(), 1)
            &&& is_halving_batch(digests(layer@), final(session).dispatched().last())
            &&& is_canonical(final(session).dispatched().last())
        },
{
    if layer.len() < 2 {
        let r: Vec<Digest> = Vec::new();
        assert(digests(r@) =~= halved(poseidon2(), digests(layer@)));
        return r;
    }
    let flat = pack_halving(layer);
    let out = permuted(session, flat.as_slice());
    let r = unpack(out.as_slice());
    proof {
        lemma_halved(poseidon2(), digests(layer@), flat@, out@, digests(r@));
    }
    r
}

/// Compresses two layers of one length digest by digest, as one batch. Where the layers
/// are empty nothing is dispatched.
pub fn batched_pairwise_compress(
    session: &mut Poseidon2GpuSession,
    a: &[Digest],
    b: &[Digest],
) -> (r: Vec<Digest>)
    requires
        a@.len() == b@.len(),
    ensures
        digests(r@) == paired(poseidon2(), digests(a@), digests(b@)),
        if a@.len() == 0 {
            final(session).dispatched() == old(session).dispatched()
        } else {
            &&& adds(old(session).dispatched(), final(session).dispatched(), 1)
            &&& is_pairing_batch(
                digests(a@),
                digests(b@),
                final(session).dispatched().last(),
            )
            &&& is_canonical(final(session).dispatched().last())
        },
{
    if a.len() == 0 {
        let r: Vec<Digest> = Vec::new();
        assert(digests(r@) =~= paired(poseidon2(), digests(a@), digests(b@)));
        return r;
    }
    let flat = pack_pairing(a, b);
    let out = permuted(session, flat.as_slice());
    let r = unpack(out.as_slice());
    proof {
        lemma_paired(poseidon2(), digests(a@), digests(b@), flat@, out@, digests(r@));
    }
    r
}

} // verus!
