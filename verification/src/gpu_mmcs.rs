//! A commitment scheme for matrices of several heights: commit to a batch, open one row
//! of each, verify the opening against the commitment.
#[allow(unused_imports)]
use crate::batch::row_limbs;
use crate::commit::run_commit;
use crate::dispatch::Poseidon2GpuSession;
use crate::field::BabyBear;
#[allow(unused_imports)]
use crate::field::limbs;
use crate::gpu_merkle::{append_row, max_height, Matrix};
#[allow(unused_imports)]
use crate::gpu_merkle::tables;
use crate::hash::{cpu_compress, cpu_sponge_hash, Digest};
#[allow(unused_imports)]
use crate::hash::{digests, poseidon2};
#[allow(unused_imports)]
use crate::path::{
    heights_fit, is_layer_len, lemma_node_in_layer, lemma_power_log, lemma_row_index, lemma_shift,
    lemma_word_depth, opened_rows, opening_matches, path_digest, path_len, proof_levels, row_index,
    sibling, sibling_path,
};
#[allow(unused_imports)]
use crate::tree::{
    ceil_log2, depth, halvings, heights, is_committable, joined, layer_limbs, lemma_tallest,
    lemma_top, tallest, tree_layer, tree_layers,
};
use vstd::prelude::*;
use vstd::string::StringExecFns;

verus! {

/// What the prover keeps of a commitment: the matrices and every digest layer.
#[derive(Clone, Debug)]
pub struct GpuMerkleTree {
    pub leaves: Vec<Matrix>,
    pub digest_layers: Vec<Vec<Digest>>,
}

/// What a verifier reports. `verify_batch` compares no widths, so it never reports
/// `WrongWidth`.
#[derive(Debug)]
pub enum GpuMmcsError {
    /// The number of opened rows is not the number of matrices.
    WrongBatchSize,
    /// An opened row has another length than its matrix is wide.
    WrongWidth,
    /// The number of siblings is not the number of layers below the cap.
    WrongHeight { expected_proof_len: usize, num_siblings: usize },
    /// The opening does not lead to the committed digest.
    RootMismatch,
}

/// The digits of a number in base ten, without leading zeros.
pub open spec fn decimal(n: nat) -> Seq<char>
    decreases n,
{
    if n < 10 {
        seq![(48 + n) as char]
    } else {
        decimal(n / 10).push((48 + n % 10) as char)
    }
}

/// The text of an error.
pub open spec fn error_text(e: GpuMmcsError) -> Seq<char> {
    match e {
        GpuMmcsError::WrongBatchSize => "wrong batch size"@,
        GpuMmcsError::WrongWidth => "wrong width"@,
        GpuMmcsError::WrongHeight { expected_proof_len, num_siblings } => {
            "wrong height (expected "@ + decimal(expected_proof_len as nat) + ", got "@ + decimal(
                num_siblings as nat,
            ) + ")"@
        },
        GpuMmcsError::RootMismatch => "root mismatch"@,
    }
}

/// `ToString::to_string` of `usize`: the decimal digits of the number.
#[verifier::external_body]
fn number_text(n: usize) -> (r: String)
    ensures
        r@ == decimal(n as nat),
{
    n.to_string()
}

impl GpuMmcsError {
    /// The text of the error.
    pub fn message(&self) -> (r: String)
        ensures
            r@ == error_text(*self),
    {
        match self {
            GpuMmcsError::WrongBatchSize => "wrong batch size".to_owned(),
            GpuMmcsError::WrongWidth => "wrong width".to_owned(),
            GpuMmcsError::WrongHeight { expected_proof_len, num_siblings } => {
                let mut text = "wrong height (expected ".to_owned();
                text.append(number_text(*expected_proof_len).as_str());
                text.append(", got ");
                text.append(number_text(*num_siblings).as_str());
                text.append(")");
                text
            },
            GpuMmcsError::RootMismatch => "root mismatch".to_owned(),
        }
    }
}

/// A layer of the tree, published as the commitment.
#[derive(Clone, Debug)]
pub struct MerkleCap {
    pub roots: Vec<Digest>,
}

/// The width and height of a matrix.
#[derive(Clone, Copy, Debug, PartialEq, Eq, Structural)]
pub struct Dimensions {
    pub width: usize,
    pub height: usize,
}

/// One row of each matrix and the siblings that lead from it to the cap.
#[derive(Clone, Debug)]
pub struct BatchOpening {
    pub opened_values: Vec<Vec<BabyBear>>,
    pub opening_proof: Vec<Digest>,
}

/// A borrowed opening.
#[derive(Clone, Copy, Debug)]
pub struct BatchOpeningRef<'a> {
    pub opened_values: &'a [Vec<BabyBear>],
    pub opening_proof: &'a [Digest],
}

/// The heights among the dimensions.
pub open spec fn dim_heights(dims: Seq<Dimensions>) -> Seq<nat> {
    Seq::new(dims.len(), |i: int| dims[i].height as nat)
}

impl GpuMerkleTree {
    /// The tree can be opened at `index` below a cap of the given height: the index is
    /// that of a row of the tallest matrix, every matrix has the row that the index
    /// selects, and every layer below the cap has the sibling.
    pub open spec fn opens_at(self, cap_height: nat, index: nat) -> bool {
        let ts = tables(self.leaves@);
        let top = tallest(heights(ts));
        &&& index < top
        &&& forall|i: int|
            0 <= i < ts.len() ==> {
                &&& ceil_log2(top) - ceil_log2(#[trigger] ts[i].len()) < usize::BITS
                &&& row_index(top, ts[i].len(), index) < ts[i].len()
            }
        &&& forall|l: int|
            0 <= l < proof_levels(self.digest_layers@.len(), cap_height) ==> sibling(
                halvings(index, l as nat),
            ) < (#[trigger] self.digest_layers@[l])@.len()
    }
}

/// The layer that is published as the commitment.
pub open spec fn cap_layer(
    p: spec_fn(Seq<u32>) -> Seq<u32>,
    ts: Seq<Seq<Seq<u32>>>,
    cap_height: nat,
) -> Seq<Seq<u32>> {
    tree_layer(p, ts, proof_levels(depth(tallest(heights(ts))) + 1, cap_height))
}

/// A tree with all its layers can be opened at every row of the tallest matrix, under a
/// cap of any height.
pub proof fn lemma_opens(tree: GpuMerkleTree)
    requires
        is_committable(tables(tree.leaves@)),
        tree.digest_layers@.len() == depth(tallest(heights(tables(tree.leaves@)))) + 1,
        forall|l: int|
            0 <= l < tree.digest_layers@.len() ==> (#[trigger] tree.digest_layers@[l])@.len()
                == halvings(tallest(heights(tables(tree.leaves@))), l as nat),
    ensures
        forall|cap_height: nat, index: nat|
            index < tallest(heights(tables(tree.leaves@))) ==> #[trigger] tree.opens_at(
                cap_height,
                index,
            ),
{
    let ts = tables(tree.leaves@);
    let hs = heights(ts);
    let top = tree.digest_layers@[0].len();
    lemma_top(ts);
    lemma_tallest(hs);
    lemma_word_depth(top);
    lemma_power_log(top as nat);
    assert forall|cap_height: nat, index: nat|
        index < tallest(hs) implies #[trigger] tree.opens_at(cap_height, index) by {
        assert forall|i: int| 0 <= i < ts.len() implies {
            &&& ceil_log2(top as nat) - ceil_log2(#[trigger] ts[i].len()) < usize::BITS
            &&& row_index(top as nat, ts[i].len(), index) < ts[i].len()
        } by {
            assert(hs[i] <= top);
            lemma_row_index(top as nat, ts[i].len(), index);
        }
        assert forall|l: int|
            0 <= l < proof_levels(tree.digest_layers@.len(), cap_height) implies sibling(
            halvings(index, l as nat),
        ) < (#[trigger] tree.digest_layers@[l])@.len() by {
            lemma_node_in_layer(top as nat, index, l as nat);
        }
    }
}

/// `p3_util::log2_ceil_usize`: the base-two logarithm rounded up, zero for zero.
#[verifier::external_body]
fn log2_ceil(n: usize) -> (r: usize)
    ensures
        r == ceil_log2(n as nat),
{
    p3_util::log2_ceil_usize(n)
}

/// A larger number has no smaller logarithm.
proof fn lemma_ceil_log2_mono(m: nat, n: nat)
    requires
        m <= n,
    ensures
        ceil_log2(m) <= ceil_log2(n),
    decreases n,
{
    if m > 1 {
        lemma_ceil_log2_mono((m + 1) / 2, (n + 1) / 2);
    }
}

/// Flipping the last bit gives the sibling.
proof fn lemma_sibling(i: usize)
    ensures
        (i ^ 1) == sibling(i as nat),
{
    assert(i ^ 1 == if i % 2 == 0 { i + 1 } else { i - 1 }) by (bit_vector);
}

/// The tallest of the heights.
fn tallest_height(dims: &[Dimensions]) -> (r: usize)
    ensures
        r == tallest(dim_heights(dims@)),
{
    let n: usize = dims.len();
    let mut r: usize = 0;
    let ghost hs = dim_heights(dims@);
    for i in 0..n
        invariant
            n == dims@.len(),
            hs == dim_heights(dims@),
            r == tallest(hs.take(i as int)),
    {
        assert(hs.take(i + 1).drop_last() =~= hs.take(i as int));
        if dims[i].height > r {
            r = dims[i].height;
        }
    }
    assert(hs.take(n as int) =~= hs);
    r
}

/// Whether height `h` is among the dimensions.
fn has_dim_height(dims: &[Dimensions], h: usize) -> (r: bool)
    ensures
        r == dim_heights(dims@).contains(h as nat),
{
    let n: usize = dims.len();
    let ghost hs = dim_heights(dims@);
    for i in 0..n
        invariant
            n == dims@.len(),
            hs == dim_heights(dims@),
            forall|j: int| 0 <= j < i ==> hs[j] != h,
    {
        if dims[i].height == h {
            assert(hs[i as int] == h);
            return true;
        }
    }
    false
}

/// Whether `h` is the length of one of the layers `0` to `last` over `top` leaves.
fn is_layer_height(top: usize, h: usize, last: usize) -> (r: bool)
    ensures
        r == is_layer_len(top as nat, h as nat, last as nat),
{
    let mut len: usize = top;
    for j in 0..last
        invariant
            len == halvings(top as nat, j as nat),
            forall|i: nat| i < j ==> #[trigger] halvings(top as nat, i) != h,
    {
        if len == h {
            assert(halvings(top as nat, j as nat) == h);
            return true;
        }
        len = len / 2;
    }
    assert(halvings(top as nat, last as nat) == len);
    len == h
}

/// Whether every height is the length of a layer over the tallest.
fn dims_fit(dims: &[Dimensions], top: usize, log_top: usize) -> (r: bool)
    requires
        top == tallest(dim_heights(dims@)),
        log_top == ceil_log2(top as nat),
    ensures
        r == heights_fit(dim_heights(dims@)),
{
    let n: usize = dims.len();
    let ghost hs = dim_heights(dims@);
    for i in 0..n
        invariant
            n == dims@.len(),
            hs == dim_heights(dims@),
            top == tallest(hs),
            log_top == ceil_log2(top as nat),
            forall|j: int|
                0 <= j < i ==> is_layer_len(top as nat, #[trigger] hs[j], log_top as nat),
    {
        assert(hs[i as int] == dims@[i as int].height);
        if !is_layer_height(top, dims[i].height, log_top) {
            return false;
        }
    }
    true
}

/// The values that belong to height `h`, joined in order.
fn joined_values(values: &[Vec<BabyBear>], dims: &[Dimensions], h: usize) -> (r: Vec<BabyBear>)
    requires
        values@.len() == dims@.len(),
    ensures
        limbs(r@) == joined(row_limbs(values@), dim_heights(dims@), h as nat),
{
    let n: usize = values.len();
    let ghost parts = row_limbs(values@);
    let ghost hs = dim_heights(dims@);
    let mut r: Vec<BabyBear> = Vec::new();
    for i in 0..n
        invariant
            n == values@.len(),
            n == dims@.len(),
            parts == row_limbs(values@),
            hs == dim_heights(dims@),
            limbs(r@) == joined(parts.take(i as int), hs, h as nat),
    {
        assert(parts.take(i + 1).drop_last() =~= parts.take(i as int));
        if dims[i].height == h {
            append_row(&mut r, &values[i]);
        }
    }
    assert(parts.take(n as int) =~= parts);
    r
}

/// Whether two digests have the same elements.
fn same_digest(a: &Digest, b: &Digest) -> (r: bool)
    ensures
        r == (limbs(a@) == limbs(b@)),
{
    for j in 0usize..8
        invariant
            forall|i: int| 0 <= i < j ==> a@[i]@ == b@[i]@,
    {
        if a[j].as_canonical_u32() != b[j].as_canonical_u32() {
            assert(limbs(a@)[j as int] != limbs(b@)[j as int]);
            return false;
        }
    }
    assert(limbs(a@) =~= limbs(b@));
    true
}

/// Compares a recomputed digest with entry `cap_idx` of a cap.
pub fn check_cap_entry(commit: &MerkleCap, cap_idx: usize, digest: &Digest) -> (r: Result<
    (),
    GpuMmcsError,
>)
    requires
        cap_idx < commit.roots@.len(),
    ensures
        r == (if limbs(digest@) == digests(commit.roots@)[cap_idx as int] {
            Ok::<(), GpuMmcsError>(())
        } else {
            Err(GpuMmcsError::RootMismatch)
        }),
{
    if same_digest(digest, &commit.roots[cap_idx]) {
        Ok(())
    } else {
        Err(GpuMmcsError::RootMismatch)
    }
}

/// A commitment scheme with caps of a given height.
#[derive(Clone, Copy)]
pub struct GpuPoseidon2Mmcs {
    session: Poseidon2GpuSession,
    cap_height: usize,
}

impl GpuPoseidon2Mmcs {
    /// The number of layers from the cap to the root.
    pub closed spec fn cap_height(self) -> nat {
        self.cap_height as nat
    }

    /// A scheme whose caps lie `cap_height` layers below the root, or at the leaves
    /// where the tree has no more layers.
    pub fn new(cap_height: usize) -> (r: GpuPoseidon2Mmcs)
        ensures
            r.cap_height() == cap_height,
    {
        GpuPoseidon2Mmcs { session: Poseidon2GpuSession::new(), cap_height }
    }

    /// The number of layers below the cap, in a tree with `last` layers above the leaves.
    fn levels_below(&self, last: usize) -> (r: usize)
        ensures
            r == proof_levels((last + 1) as nat, self.cap_height()),
    {
        if self.cap_height < last {
            last - self.cap_height
        } else {
            0
        }
    }

    /// Commits to a batch of matrices, each with a power of two of rows. The commitment
    /// is the layer of the tree at the cap height; the tree can be opened at every row
    /// of the tallest matrix.
    pub fn commit(&self, inputs: Vec<Matrix>) -> (r: (MerkleCap, GpuMerkleTree))
        requires
            is_committable(tables(inputs@)),
        ensures
            r.1.leaves@ == inputs@,
            layer_limbs(r.1.digest_layers@) == tree_layers(poseidon2(), tables(inputs@)),
            digests(r.0.roots@) == cap_layer(poseidon2(), tables(inputs@), self.cap_height()),
            r.0.roots@ == r.1.digest_layers@[proof_levels(
                r.1.digest_layers@.len(),
                self.cap_height(),
            ) as int]@,
            forall|index: nat|
                index < tallest(heights(tables(inputs@))) ==> #[trigger] r.1.opens_at(
                    self.cap_height(),
                    index,
                ),
    {
        let ghost last = depth(tallest(heights(tables(inputs@))));
        let mut session = self.session;
        let tree = run_commit(&mut session, inputs);
        assert(layer_limbs(tree.digest_layers@).len() == last + 1);
        (self.cap(&tree), tree)
    }

    /// The layer of a tree at the cap height.
    pub fn cap(&self, tree: &GpuMerkleTree) -> (r: MerkleCap)
        requires
            tree.digest_layers@.len() > 0,
        ensures
            r.roots@ == tree.digest_layers@[proof_levels(
                tree.digest_layers@.len(),
                self.cap_height(),
            ) as int]@,
            digests(r.roots@) == layer_limbs(tree.digest_layers@)[proof_levels(
                tree.digest_layers@.len(),
                self.cap_height(),
            ) as int],
    {
        let at: usize = self.levels_below(tree.digest_layers.len() - 1);
        let n: usize = tree.digest_layers[at].len();
        let mut roots: Vec<Digest> = Vec::new();
        for i in 0..n
            invariant
                at < tree.digest_layers@.len(),
                n == tree.digest_layers@[at as int]@.len(),
                roots@ == tree.digest_layers@[at as int]@.take(i as int),
        {
            roots.push(tree.digest_layers[at][i]);
            assert(tree.digest_layers@[at as int]@.take(i + 1) =~= roots@);
        }
        assert(roots@ =~= tree.digest_layers@[at as int]@);
        MerkleCap { roots }
    }

    /// Opens every matrix at `index`, and collects the siblings up to the cap.
    pub fn open_batch(&self, index: usize, prover_data: &GpuMerkleTree) -> (r: BatchOpening)
        requires
            prover_data.opens_at(self.cap_height(), index as nat),
        ensures
            row_limbs(r.opened_values@) == opened_rows(tables(prover_data.leaves@), index as nat),
            digests(r.opening_proof@) == sibling_path(
                layer_limbs(prover_data.digest_layers@),
                index as nat,
                proof_levels(prover_data.digest_layers@.len(), self.cap_height()),
            ),
    {
        let ghost ts = tables(prover_data.leaves@);
        let top: usize = max_height(prover_data.leaves.as_slice());
        let log_top: usize = log2_ceil(top);
        let n: usize = prover_data.leaves.len();
        let mut opened_values: Vec<Vec<BabyBear>> = Vec::new();
        for i in 0..n
            invariant
                n == prover_data.leaves@.len(),
                ts == tables(prover_data.leaves@),
                top == tallest(heights(ts)),
                log_top == ceil_log2(top as nat),
                prover_data.opens_at(self.cap_height(), index as nat),
                opened_values@.len() == i,
                forall|j: int|
                    0 <= j < i ==> limbs(#[trigger] opened_values@[j]@) == opened_rows(
                        ts,
                        index as nat,
                    )[j],
        {
            let height: usize = prover_data.leaves[i].height();
            proof {
                assert(ts[i as int].len() == height);
                lemma_tallest(heights(ts));
                assert(heights(ts)[i as int] <= top);
                lemma_ceil_log2_mono(height as nat, top as nat);
            }
            let bits_reduced: usize = log_top - log2_ceil(height);
            let reduced_index: usize = index >> bits_reduced;
            proof {
                lemma_shift(index, bits_reduced);
            }
            let mut row: Vec<BabyBear> = Vec::new();
            append_row(&mut row, &prover_data.leaves[i].rows[reduced_index]);
            assert(limbs(row@) =~= opened_rows(ts, index as nat)[i as int]);
            opened_values.push(row);
        }
        assert(row_limbs(opened_values@) =~= opened_rows(ts, index as nat));

        let ghost layers = layer_limbs(prover_data.digest_layers@);
        let num_layers: usize = prover_data.digest_layers.len();
        let levels: usize = if num_layers == 0 {
            0
        } else {
            self.levels_below(num_layers - 1)
        };
        let mut opening_proof: Vec<Digest> = Vec::new();
        let mut idx: usize = index;
        for l in 0..levels
            invariant
                layers == layer_limbs(prover_data.digest_layers@),
                levels == proof_levels(prover_data.digest_layers@.len(), self.cap_height()),
                prover_data.opens_at(self.cap_height(), index as nat),
                idx == halvings(index as nat, l as nat),
                opening_proof@.len() == l,
                forall|j: int|
                    0 <= j < l ==> limbs(#[trigger] opening_proof@[j]@) == sibling_path(
                        layers,
                        index as nat,
                        levels as nat,
                    )[j],
        {
            proof {
                lemma_sibling(idx);
                assert(sibling(idx as nat) < prover_data.digest_layers@[l as int]@.len());
            }
            let other: usize = idx ^ 1;
            opening_proof.push(prover_data.digest_layers[l][other]);
            idx = idx / 2;
        }
        assert(digests(opening_proof@) =~= sibling_path(layers, index as nat, levels as nat));
        BatchOpening { opened_values, opening_proof }
    }

    /// The committed matrices.
    pub fn get_matrices<'a>(&self, prover_data: &'a GpuMerkleTree) -> (r: Vec<&'a Matrix>)
        ensures
            r@.len() == prover_data.leaves@.len(),
            forall|i: int| 0 <= i < r@.len() ==> *(#[trigger] r@[i]) == prover_data.leaves@[i],
    {
        let n: usize = prover_data.leaves.len();
        let mut r: Vec<&'a Matrix> = Vec::new();
        for i in 0..n
            invariant
                n == prover_data.leaves@.len(),
                r@.len() == i,
                forall|j: int| 0 <= j < i ==> *(#[trigger] r@[j]) == prover_data.leaves@[j],
        {
            r.push(&prover_data.leaves[i]);
        }
        r
    }

    /// Checks all of an opening but its digests: the number of rows, the number of
    /// siblings, and that each height is that of a layer. No opening of other heights
    /// leads to a committed digest.
    pub fn check_shape(
        &self,
        dimensions: &[Dimensions],
        batch_proof: BatchOpeningRef<'_>,
    ) -> (r: Result<(), GpuMmcsError>)
        ensures
            ({
                let hs = dim_heights(dimensions@);
                let siblings = batch_proof.opening_proof@.len();
                if dimensions@.len() != batch_proof.opened_values@.len() {
                    r == Err::<(), GpuMmcsError>(GpuMmcsError::WrongBatchSize)
                } else if siblings != path_len(tallest(hs), self.cap_height()) {
                    &&& r matches Err(
                        GpuMmcsError::WrongHeight { expected_proof_len, num_siblings },
                    )
                    &&& expected_proof_len == path_len(tallest(hs), self.cap_height())
                    &&& num_siblings == siblings
                } else if heights_fit(hs) {
                    r == Ok::<(), GpuMmcsError>(())
                } else {
                    r == Err::<(), GpuMmcsError>(GpuMmcsError::RootMismatch)
                }
            }),
    {
        if dimensions.len() != batch_proof.opened_values.len() {
            return Err(GpuMmcsError::WrongBatchSize);
        }
        let top: usize = tallest_height(dimensions);
        let log_top: usize = log2_ceil(top);
        let expected_proof_len: usize = self.levels_below(log_top);
        let num_siblings: usize = batch_proof.opening_proof.len();
        if num_siblings != expected_proof_len {
            return Err(GpuMmcsError::WrongHeight { expected_proof_len, num_siblings });
        }
        if dims_fit(dimensions, top, log_top) {
            Ok(())
        } else {
            Err(GpuMmcsError::RootMismatch)
        }
    }

    /// Recomputes the cap entry above `index` from the opened rows and siblings.
    fn recompute(
        dimensions: &[Dimensions],
        index: usize,
        batch_proof: BatchOpeningRef<'_>,
    ) -> (r: (Digest, usize))
        requires
            dimensions@.len() == batch_proof.opened_values@.len(),
        ensures
            limbs(r.0@) == path_digest(
                poseidon2(),
                dim_heights(dimensions@),
                row_limbs(batch_proof.opened_values@),
                digests(batch_proof.opening_proof@),
                index as nat,
                batch_proof.opening_proof@.len(),
            ),
            r.1 == halvings(index as nat, batch_proof.opening_proof@.len()),
    {
        let opened_values = batch_proof.opened_values;
        let opening_proof = batch_proof.opening_proof;
        let ghost hs = dim_heights(dimensions@);
        let ghost opened = row_limbs(opened_values@);
        let ghost path = digests(opening_proof@);
        let top: usize = tallest_height(dimensions);
        let leaf_row = joined_values(opened_values, dimensions, top);
        let mut digest: Digest = cpu_sponge_hash(leaf_row.as_slice());
        let mut idx: usize = index;
        let mut len: usize = top;
        let n: usize = opening_proof.len();
        for k in 0..n
            invariant
                n == opening_proof@.len(),
                hs == dim_heights(dimensions@),
                opened == row_limbs(opened_values@),
                path == digests(opening_proof@),
                dimensions@.len() == opened_values@.len(),
                idx == halvings(index as nat, k as nat),
                len == halvings(tallest(hs), k as nat),
                limbs(digest@) == path_digest(
                    poseidon2(),
                    hs,
                    opened,
                    path,
                    index as nat,
                    k as nat,
                ),
        {
            let other: Digest = opening_proof[k];
            if idx % 2 == 0 {
                digest = cpu_compress(digest, other);
            } else {
                digest = cpu_compress(other, digest);
            }
            idx = idx / 2;
            len = len / 2;
            if has_dim_height(dimensions, len) {
                let row = joined_values(opened_values, dimensions, len);
                let row_digest = cpu_sponge_hash(row.as_slice());
                digest = cpu_compress(digest, row_digest);
            }
        }
        (digest, idx)
    }

    /// Checks an opening against a commitment. The batch is refused where it has another
    /// number of rows than there are matrices, and where it has another number of
    /// siblings than there are layers below the cap. It is then accepted just where the
    /// heights are those of a tree and the rows lead to the cap entry above `index`.
    ///
    /// A matrix with fewer rows than the cap has entries enters the tree above the cap,
    /// so its row is not held against anything. The claimed widths are not looked at:
    /// callers that do not track them may leave them at zero.
    pub fn verify_batch(
        &self,
        commit: &MerkleCap,
        dimensions: &[Dimensions],
        index: usize,
        batch_proof: BatchOpeningRef<'_>,
    ) -> (r: Result<(), GpuMmcsError>)
        requires
            dimensions@.len() == batch_proof.opened_values@.len() ==> dimensions@.len() > 0,
            ({
                &&& dimensions@.len() == batch_proof.opened_values@.len()
                &&& batch_proof.opening_proof@.len() == path_len(
                    tallest(dim_heights(dimensions@)),
                    self.cap_height(),
                )
                &&& heights_fit(dim_heights(dimensions@))
            }) ==> halvings(index as nat, batch_proof.opening_proof@.len())
                < commit.roots@.len(),
        ensures
            ({
                let hs = dim_heights(dimensions@);
                let siblings = batch_proof.opening_proof@.len();
                if dimensions@.len() != batch_proof.opened_values@.len() {
                    r == Err::<(), GpuMmcsError>(GpuMmcsError::WrongBatchSize)
                } else if siblings != path_len(tallest(hs), self.cap_height()) {
                    &&& r matches Err(
                        GpuMmcsError::WrongHeight { expected_proof_len, num_siblings },
                    )
                    &&& expected_proof_len == path_len(tallest(hs), self.cap_height())
                    &&& num_siblings == siblings
                } else if opening_matches(
                    poseidon2(),
                    digests(commit.roots@),
                    hs,
                    index as nat,
                    row_limbs(batch_proof.opened_values@),
                    digests(batch_proof.opening_proof@),
                ) {
                    r == Ok::<(), GpuMmcsError>(())
                } else {
                    r == Err::<(), GpuMmcsError>(GpuMmcsError::RootMismatch)
                }
            }),
    {
        match self.check_shape(dimensions, batch_proof) {
            Err(e) => Err(e),
            Ok(()) => {
                let (digest, cap_idx) = GpuPoseidon2Mmcs::recompute(
                    dimensions,
                    index,
                    batch_proof,
                );
                check_cap_entry(commit, cap_idx, &digest)
            },
        }
    }
}

} // verus!
