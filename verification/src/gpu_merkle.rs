//! Matrices of field elements and the root of the hash tree over them.
#[allow(unused_imports)]
use crate::batch::row_limbs;
#[allow(unused_imports)]
use crate::commit::{commit_batches, is_phase_batch, phase_after};
use crate::commit::run_commit;
#[allow(unused_imports)]
use crate::dispatch::adds;
use crate::dispatch::Poseidon2GpuSession;
use crate::field::BabyBear;
#[allow(unused_imports)]
use crate::field::{is_canonical, limbs};
use crate::hash::Digest;
#[allow(unused_imports)]
use crate::hash::poseidon2;
#[allow(unused_imports)]
use crate::tree::{
    depth, heights, is_committable, is_power_of_two, joined, layer_limbs, lemma_depth,
    lemma_layer_len, lemma_top, level_rows, rows_at, tallest, tree_layer, tree_root,
};
use vstd::prelude::*;

verus! {

/// A matrix of field elements, row by row.
#[derive(Clone, Debug)]
pub struct Matrix {
    pub rows: Vec<Vec<BabyBear>>,
}

impl View for Matrix {
    type V = Seq<Seq<u32>>;

    open spec fn view(&self) -> Seq<Seq<u32>> {
        row_limbs(self.rows@)
    }
}

/// The limbs of every matrix.
pub open spec fn tables(ms: Seq<Matrix>) -> Seq<Seq<Seq<u32>>> {
    Seq::new(ms.len(), |i: int| ms[i]@)
}

impl Matrix {
    /// The number of rows.
    pub fn height(&self) -> (r: usize)
        ensures
            r == self@.len(),
    {
        self.rows.len()
    }

    /// The length of the first row, zero where there is none.
    pub fn width(&self) -> (r: usize)
        ensures
            r == if self@.len() > 0 {
                self@[0].len()
            } else {
                0
            },
    {
        if self.rows.len() > 0 {
            self.rows[0].len()
        } else {
            0
        }
    }
}

/// The height of the tallest matrix.
pub fn max_height(ms: &[Matrix]) -> (r: usize)
    ensures
        r == tallest(heights(tables(ms@))),
{
    let n: usize = ms.len();
    let mut r: usize = 0;
    let ghost hs = heights(tables(ms@));
    for i in 0..n
        invariant
            n == ms@.len(),
            hs == heights(tables(ms@)),
            r == tallest(hs.take(i as int)),
    {
        assert(hs.take(i + 1).drop_last() =~= hs.take(i as int));
        if ms[i].height() > r {
            r = ms[i].height();
        }
    }
    assert(hs.take(n as int) =~= hs);
    r
}

/// Whether a matrix of height `h` is among them.
pub(crate) fn has_height(ms: &[Matrix], h: usize) -> (r: bool)
    ensures
        r == heights(tables(ms@)).contains(h as nat),
{
    let n: usize = ms.len();
    let ghost hs = heights(tables(ms@));
    for i in 0..n
        invariant
            n == ms@.len(),
            hs == heights(tables(ms@)),
            forall|j: int| 0 <= j < i ==> hs[j] != h,
    {
        if ms[i].height() == h {
            assert(hs[i as int] == h);
            return true;
        }
    }
    false
}

/// Appends a row.
pub(crate) fn append_row(row: &mut Vec<BabyBear>, tail: &Vec<BabyBear>)
    ensures
        limbs(final(row)@) == limbs(old(row)@) + limbs(tail@),
{
    let n: usize = tail.len();
    let ghost before = row@;
    for j in 0..n
        invariant
            n == tail@.len(),
            row@ == before + tail@.take(j as int),
    {
        row.push(tail[j]);
        assert(tail@.take(j + 1) =~= tail@.take(j as int).push(tail@[j as int]));
    }
    assert(tail@.take(n as int) =~= tail@);
    assert(limbs(row@) =~= limbs(before) + limbs(tail@));
}

/// The rows of the matrices of height `h`, joined row by row.
pub(crate) fn joined_rows(ms: &[Matrix], h: usize) -> (r: Vec<Vec<BabyBear>>)
    ensures
        row_limbs(r@) == level_rows(tables(ms@), h as nat),
{
    let n: usize = ms.len();
    let ghost ts = tables(ms@);
    let ghost hs = heights(ts);
    let mut r: Vec<Vec<BabyBear>> = Vec::new();
    for k in 0..h
        invariant
            n == ms@.len(),
            ts == tables(ms@),
            hs == heights(ts),
            r@.len() == k,
            forall|j: int|
                0 <= j < k ==> limbs(#[trigger] r@[j]@) == joined(rows_at(ts, j), hs, h as nat),
    {
        let mut row: Vec<BabyBear> = Vec::new();
        let ghost parts = rows_at(ts, k as int);
        for i in 0..n
            invariant
                n == ms@.len(),
                k < h,
                ts == tables(ms@),
                hs == heights(ts),
                parts == rows_at(ts, k as int),
                limbs(row@) == joined(parts.take(i as int), hs, h as nat),
        {
            assert(parts.take(i + 1).drop_last() =~= parts.take(i as int));
            if ms[i].height() == h {
                append_row(&mut row, &ms[i].rows[k]);
            }
        }
        assert(parts.take(n as int) =~= parts);
        r.push(row);
    }
    assert(row_limbs(r@) =~= level_rows(ts, h as nat));
    r
}

/// A copy of the rows.
pub(crate) fn copy_rows(data: &[Vec<BabyBear>]) -> (r: Vec<Vec<BabyBear>>)
    ensures
        row_limbs(r@) == row_limbs(data@),
{
    let n: usize = data.len();
    let mut r: Vec<Vec<BabyBear>> = Vec::new();
    for i in 0..n
        invariant
            n == data@.len(),
            r@.len() == i,
            forall|j: int| 0 <= j < i ==> limbs(#[trigger] r@[j]@) == limbs(data@[j]@),
    {
        let mut row: Vec<BabyBear> = Vec::new();
        append_row(&mut row, &data[i]);
        assert(limbs(row@) =~= limbs(data@[i as int]@));
        r.push(row);
    }
    assert(row_limbs(r@) =~= row_limbs(data@));
    r
}

/// The root of the tree over one matrix, given by its rows. Each phase of the commitment
/// is one batch.
pub fn commit_root_via_gpu(
    session: &mut Poseidon2GpuSession,
    data: &[Vec<BabyBear>],
) -> (r: Digest)
    requires
        is_power_of_two(data@.len()),
    ensures
        limbs(r@) == tree_root(poseidon2(), seq![row_limbs(data@)]),
        adds(
            old(session).dispatched(),
            final(session).dispatched(),
            commit_batches(seq![row_limbs(data@)]),
        ),
        forall|j: int|
            old(session).dispatched().len() <= j < final(session).dispatched().len() ==> {
                &&& is_phase_batch(
                    poseidon2(),
                    seq![row_limbs(data@)],
                    phase_after(seq![row_limbs(data@)], (j - old(session).dispatched().len()) as nat),
                    #[trigger] final(session).dispatched()[j],
                )
                &&& is_canonical(final(session).dispatched()[j])
            },
{
    let matrix = Matrix { rows: copy_rows(data) };
    let mut matrices: Vec<Matrix> = Vec::new();
    matrices.push(matrix);
    assert(tables(matrices@) =~= seq![row_limbs(data@)]);
    commit_root_via_gpu_mixed(session, matrices)
}

/// The root of the tree over matrices of several heights. Each phase of the commitment is
/// one batch.
pub fn commit_root_via_gpu_mixed(
    session: &mut Poseidon2GpuSession,
    matrices: Vec<Matrix>,
) -> (r: Digest)
    requires
        is_committable(tables(matrices@)),
    ensures
        limbs(r@) == tree_root(poseidon2(), tables(matrices@)),
        adds(
            old(session).dispatched(),
            final(session).dispatched(),
            commit_batches(tables(matrices@)),
        ),
        forall|j: int|
            old(session).dispatched().len() <= j < final(session).dispatched().len() ==> {
                &&& is_phase_batch(
                    poseidon2(),
                    tables(matrices@),
                    phase_after(tables(matrices@), (j - old(session).dispatched().len()) as nat),
                    #[trigger] final(session).dispatched()[j],
                )
                &&& is_canonical(final(session).dispatched()[j])
            },
{
    let ghost ts = tables(matrices@);
    let ghost last = depth(tallest(heights(ts)));
    let tree = run_commit(session, matrices);
    proof {
        lemma_top(ts);
        lemma_depth(tallest(heights(ts)));
        lemma_layer_len(poseidon2(), ts, last);
        assert(layer_limbs(tree.digest_layers@)[last as int] == tree_layer(poseidon2(), ts, last));
        assert(layer_limbs(tree.digest_layers@).len() == last + 1);
    }
    let top: usize = tree.digest_layers.len() - 1;
    tree.digest_layers[top][0]
}

} // verus!
