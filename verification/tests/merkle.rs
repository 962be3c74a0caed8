use p3_baby_bear::{default_babybear_poseidon2_16, Poseidon2BabyBear};
use p3_commit::Mmcs;
use p3_field::integers::QuotientMap;
use p3_field::{Field, PrimeField32};
use p3_matrix::dense::RowMajorMatrix;
use p3_merkle_tree::MerkleTreeMmcs;
use p3_poseidon2_cuda::batch::{
    batched_binary_compress, batched_pairwise_compress, batched_sponge_hash,
};
use p3_poseidon2_cuda::commit::CommitRun;
use p3_poseidon2_cuda::gpu_merkle::{commit_root_via_gpu, commit_root_via_gpu_mixed, Matrix};
use p3_poseidon2_cuda::{BabyBear, Poseidon2GpuSession};
use p3_symmetric::{
    CryptographicHasher, PaddingFreeSponge, Permutation, PseudoCompressionFunction,
    TruncatedPermutation,
};
use std::collections::BTreeMap;

type P3 = p3_baby_bear::BabyBear;

fn to_p3(x: &BabyBear) -> P3 {
    P3::from_int(x.as_canonical_u32())
}

fn from_p3(d: [P3; 8]) -> [BabyBear; 8] {
    d.map(|x| BabyBear::from_int(x.as_canonical_u32()))
}

fn make_matrix(n_rows: usize, row_width: usize, seed: u64) -> Matrix {
    let mut x: u64 = seed;
    let rows = (0..n_rows)
        .map(|_| {
            (0..row_width)
                .map(|_| {
                    x ^= x << 13;
                    x ^= x >> 7;
                    x ^= x << 17;
                    BabyBear::from_int((x as u32) % 2_013_265_921)
                })
                .collect()
        })
        .collect();
    Matrix { rows }
}

fn hash_row(row: &[P3]) -> [P3; 8] {
    let sponge = PaddingFreeSponge::<_, 16, 8, 8>::new(default_babybear_poseidon2_16());
    sponge.hash_iter(row.iter().copied())
}

fn compress_pair(a: [P3; 8], b: [P3; 8]) -> [P3; 8] {
    let compress = TruncatedPermutation::<_, 2, 8, 16>::new(default_babybear_poseidon2_16());
    compress.compress([a, b])
}

/// The root computed row by row and pair by pair with Plonky3's primitives.
fn reference_root_mixed(matrices: Vec<Matrix>) -> [BabyBear; 8] {
    let mut by_height: BTreeMap<usize, Vec<Matrix>> = BTreeMap::new();
    for m in matrices {
        by_height.entry(m.height()).or_default().push(m);
    }
    let groups: Vec<(usize, Vec<Matrix>)> = by_height.into_iter().rev().collect();
    let hash_group = |height: usize, group: &[Matrix]| -> Vec<[P3; 8]> {
        (0..height)
            .map(|r| {
                let row: Vec<P3> =
                    group.iter().flat_map(|m| m.rows[r].iter().map(to_p3)).collect();
                hash_row(&row)
            })
            .collect()
    };
    let mut layer = hash_group(groups[0].0, &groups[0].1);
    let mut group_idx = 1;
    while layer.len() > 1 {
        let intermediate: Vec<[P3; 8]> =
            layer.chunks_exact(2).map(|pair| compress_pair(pair[0], pair[1])).collect();
        let new_len = intermediate.len();
        if group_idx < groups.len() && groups[group_idx].0 == new_len {
            let row_digests = hash_group(new_len, &groups[group_idx].1);
            layer = intermediate
                .iter()
                .zip(row_digests.iter())
                .map(|(a, b)| compress_pair(*a, *b))
                .collect();
            group_idx += 1;
        } else {
            layer = intermediate;
        }
    }
    from_p3(layer[0])
}

/// The root that Plonky3's own scheme commits to.
fn plonky3_mmcs_root(matrices: Vec<Matrix>) -> [BabyBear; 8] {
    let perm: Poseidon2BabyBear<16> = default_babybear_poseidon2_16();
    let sponge = PaddingFreeSponge::<_, 16, 8, 8>::new(perm.clone());
    let compress = TruncatedPermutation::<_, 2, 8, 16>::new(perm);
    let mmcs = MerkleTreeMmcs::<
        <P3 as Field>::Packing,
        <P3 as Field>::Packing,
        PaddingFreeSponge<Poseidon2BabyBear<16>, 16, 8, 8>,
        TruncatedPermutation<Poseidon2BabyBear<16>, 2, 8, 16>,
        2,
        8,
    >::new(sponge, compress, 0);
    let p3_matrices: Vec<RowMajorMatrix<P3>> = matrices
        .into_iter()
        .map(|m| {
            let width = m.width();
            let flat: Vec<P3> = m.rows.iter().flatten().map(to_p3).collect();
            assert_eq!(flat.len(), m.height() * width);
            RowMajorMatrix::new(flat, width)
        })
        .collect();
    let (cap, _prover_data) = mmcs.commit(p3_matrices);
    from_p3(cap[0])
}

#[test]
fn gpu_mixed_single_matrix_w8_h64() {
    let m = make_matrix(64, 8, 0x111);
    let cpu = reference_root_mixed(vec![m.clone()]);
    let mut session = Poseidon2GpuSession::new();
    let gpu = commit_root_via_gpu_mixed(&mut session, vec![m]);
    assert_eq!(gpu, cpu);
}

#[test]
fn gpu_mixed_two_matrices_same_height() {
    let a = make_matrix(64, 8, 0x111);
    let b = make_matrix(64, 4, 0x222);
    let cpu = reference_root_mixed(vec![a.clone(), b.clone()]);
    let mut session = Poseidon2GpuSession::new();
    let gpu = commit_root_via_gpu_mixed(&mut session, vec![a, b]);
    assert_eq!(gpu, cpu);
}

#[test]
fn gpu_mixed_two_matrices_diff_height_injection() {
    let big = make_matrix(64, 8, 0x111);
    let small = make_matrix(32, 8, 0x222);
    let cpu = reference_root_mixed(vec![big.clone(), small.clone()]);
    let mut session = Poseidon2GpuSession::new();
    let gpu = commit_root_via_gpu_mixed(&mut session, vec![big, small]);
    assert_eq!(gpu, cpu);
}

#[test]
fn gpu_mixed_three_matrices_chain_injection() {
    let a = make_matrix(256, 8, 0xA);
    let b = make_matrix(64, 8, 0xB);
    let c = make_matrix(16, 8, 0xC);
    let cpu = reference_root_mixed(vec![a.clone(), b.clone(), c.clone()]);
    let mut session = Poseidon2GpuSession::new();
    let gpu = commit_root_via_gpu_mixed(&mut session, vec![a, b, c]);
    assert_eq!(gpu, cpu);
}

#[test]
fn gpu_mixed_diff_widths_injection() {
    let big = make_matrix(128, 12, 0xD1);
    let small = make_matrix(32, 5, 0xD2);
    let cpu = reference_root_mixed(vec![big.clone(), small.clone()]);
    let mut session = Poseidon2GpuSession::new();
    let gpu = commit_root_via_gpu_mixed(&mut session, vec![big, small]);
    assert_eq!(gpu, cpu);
}

#[test]
fn gpu_mixed_two_at_same_height_plus_injection() {
    let a = make_matrix(128, 4, 0xE1);
    let b = make_matrix(128, 6, 0xE2);
    let c = make_matrix(32, 8, 0xE3);
    let cpu = reference_root_mixed(vec![a.clone(), b.clone(), c.clone()]);
    let mut session = Poseidon2GpuSession::new();
    let gpu = commit_root_via_gpu_mixed(&mut session, vec![a, b, c]);
    assert_eq!(gpu, cpu);
}

#[test]
fn gpu_root_matches_plonky3_actual_mmcs_single() {
    let m = make_matrix(64, 8, 0x1001);
    let p3 = plonky3_mmcs_root(vec![m.clone()]);
    let mut session = Poseidon2GpuSession::new();
    let gpu = commit_root_via_gpu_mixed(&mut session, vec![m]);
    assert_eq!(gpu, p3, "gpu_root != Plonky3 MerkleTreeMmcs root (single matrix)");
}

#[test]
fn gpu_root_matches_plonky3_actual_mmcs_two_diff_height() {
    let big = make_matrix(64, 8, 0x2001);
    let small = make_matrix(32, 8, 0x2002);
    let p3 = plonky3_mmcs_root(vec![big.clone(), small.clone()]);
    let mut session = Poseidon2GpuSession::new();
    let gpu = commit_root_via_gpu_mixed(&mut session, vec![big, small]);
    assert_eq!(gpu, p3, "gpu_root != Plonky3 MerkleTreeMmcs root (mixed)");
}

#[test]
fn gpu_root_matches_plonky3_actual_mmcs_three_chain() {
    let a = make_matrix(256, 8, 0x3001);
    let b = make_matrix(64, 8, 0x3002);
    let c = make_matrix(16, 8, 0x3003);
    let p3 = plonky3_mmcs_root(vec![a.clone(), b.clone(), c.clone()]);
    let mut session = Poseidon2GpuSession::new();
    let gpu = commit_root_via_gpu_mixed(&mut session, vec![a, b, c]);
    assert_eq!(gpu, p3, "gpu_root != Plonky3 MerkleTreeMmcs root (chain)");
}

#[test]
fn single_matrix_entry_is_the_mixed_one() {
    let m = make_matrix(16, 9, 0x51);
    let mut session = Poseidon2GpuSession::new();
    let single = commit_root_via_gpu(&mut session, &m.rows);
    let mixed = commit_root_via_gpu_mixed(&mut session, vec![m.clone()]);
    assert_eq!(single, mixed);
    assert_eq!(single, reference_root_mixed(vec![m]));
}

#[test]
fn one_row_is_its_own_root() {
    let m = make_matrix(1, 11, 0x52);
    let row: Vec<P3> = m.rows[0].iter().map(to_p3).collect();
    let mut session = Poseidon2GpuSession::new();
    assert_eq!(commit_root_via_gpu(&mut session, &m.rows), from_p3(hash_row(&row)));
}

#[test]
fn matrix_dimensions() {
    let m = make_matrix(4, 3, 1);
    assert_eq!((m.height(), m.width()), (4, 3));
    let none = Matrix { rows: vec![] };
    assert_eq!((none.height(), none.width()), (0, 0));
}

#[test]
fn rows_of_different_lengths_hash_like_plonky3() {
    let rows: Vec<Vec<BabyBear>> = [0usize, 1, 7, 8, 9, 16, 17, 40]
        .iter()
        .map(|&w| make_matrix(1, w, 0x77 + w as u64).rows.remove(0))
        .collect();
    let mut session = Poseidon2GpuSession::new();
    let digests = batched_sponge_hash(&mut session, &rows);
    assert_eq!(digests.len(), rows.len());
    for (digest, row) in digests.iter().zip(rows.iter()) {
        let p3_row: Vec<P3> = row.iter().map(to_p3).collect();
        assert_eq!(*digest, from_p3(hash_row(&p3_row)));
    }
}

#[test]
fn empty_rows_hash_to_zero() {
    let mut session = Poseidon2GpuSession::new();
    let zero = [BabyBear::from_int(0); 8];
    assert_eq!(batched_sponge_hash(&mut session, &[vec![], vec![]]), vec![zero, zero]);
    assert_eq!(batched_sponge_hash(&mut session, &[]), Vec::<[BabyBear; 8]>::new());
}

#[test]
fn rows_hash_alone() {
    let a = make_matrix(3, 20, 5).rows;
    let b = make_matrix(2, 3, 6).rows;
    let mut session = Poseidon2GpuSession::new();
    let mut apart = batched_sponge_hash(&mut session, &a);
    apart.extend(batched_sponge_hash(&mut session, &b));
    let mut both = a;
    both.extend(b);
    assert_eq!(batched_sponge_hash(&mut session, &both), apart);
}

#[test]
fn layers_compress_like_plonky3() {
    let mut session = Poseidon2GpuSession::new();
    let layer = batched_sponge_hash(&mut session, &make_matrix(5, 2, 9).rows);
    let p3: Vec<[P3; 8]> =
        layer.iter().map(|d| d.map(|x| P3::from_int(x.as_canonical_u32()))).collect();
    let up = batched_binary_compress(&mut session, &layer);
    assert_eq!(
        up,
        vec![from_p3(compress_pair(p3[0], p3[1])), from_p3(compress_pair(p3[2], p3[3]))]
    );
    let pairs = batched_pairwise_compress(&mut session, &layer[..2], &layer[3..]);
    assert_eq!(
        pairs,
        vec![from_p3(compress_pair(p3[0], p3[3])), from_p3(compress_pair(p3[1], p3[4]))]
    );
    assert!(batched_binary_compress(&mut session, &layer[..1]).is_empty());
    assert!(batched_binary_compress(&mut session, &[]).is_empty());
    assert!(batched_pairwise_compress(&mut session, &[], &[]).is_empty());
}

#[test]
fn same_height_counts_as_side_by_side() {
    let a = make_matrix(8, 5, 21);
    let b = make_matrix(8, 6, 22);
    let c = make_matrix(2, 3, 23);
    let joined = Matrix {
        rows: a
            .rows
            .iter()
            .zip(b.rows.iter())
            .map(|(x, y)| x.iter().chain(y.iter()).copied().collect())
            .collect(),
    };
    let mut session = Poseidon2GpuSession::new();
    let apart = commit_root_via_gpu_mixed(&mut session, vec![a.clone(), b.clone(), c.clone()]);
    assert_eq!(apart, commit_root_via_gpu_mixed(&mut session, vec![joined, c.clone()]));
    let around = commit_root_via_gpu_mixed(&mut session, vec![a.clone(), c.clone(), b.clone()]);
    assert_eq!(apart, around);
    let swapped = commit_root_via_gpu_mixed(&mut session, vec![b, a, c]);
    assert_ne!(apart, swapped);
}

#[test]
fn different_heights_commute() {
    let a = make_matrix(8, 5, 31);
    let b = make_matrix(4, 6, 32);
    let mut session = Poseidon2GpuSession::new();
    let ab = commit_root_via_gpu_mixed(&mut session, vec![a.clone(), b.clone()]);
    let ba = commit_root_via_gpu_mixed(&mut session, vec![b, a]);
    assert_eq!(ab, ba);
}

#[test]
fn reordering_keeps_the_root_where_equal_heights_keep_their_order() {
    let a = make_matrix(8, 5, 33);
    let b = make_matrix(4, 6, 34);
    let c = make_matrix(8, 1, 35);
    let d = make_matrix(4, 2, 36);
    let e = make_matrix(1, 3, 37);
    let root = |batch: [&Matrix; 5]| {
        let mut session = Poseidon2GpuSession::new();
        commit_root_via_gpu_mixed(&mut session, batch.iter().map(|m| (*m).clone()).collect())
    };
    let expected = root([&a, &b, &c, &d, &e]);
    assert_eq!(root([&e, &b, &d, &a, &c]), expected);
    assert_eq!(root([&a, &c, &e, &b, &d]), expected);
    assert_ne!(root([&a, &d, &c, &b, &e]), expected);
}

#[test]
fn a_run_driven_from_outside_builds_the_same_tree() {
    let matrices = vec![make_matrix(8, 20, 41), make_matrix(4, 3, 42), make_matrix(1, 0, 43)];
    let perm = default_babybear_poseidon2_16();
    let mut run = CommitRun::begin(matrices.clone());
    let mut sizes = Vec::new();
    while let Some(batch) = run.batch() {
        sizes.push(batch.len() / 16);
        let mut out = Vec::new();
        for state in batch.chunks_exact(16) {
            let mut s: [P3; 16] = core::array::from_fn(|i| P3::from_int(state[i]));
            perm.permute_mut(&mut s);
            out.extend(s.iter().map(|x| x.as_canonical_u32()));
        }
        run.accept(&out);
    }
    // Three steps over the leaves, then halving, hashing and joining where rows enter.
    assert_eq!(sizes, vec![8, 8, 8, 4, 4, 4, 2, 1, 1]);
    let tree = run.finish();
    assert_eq!(tree.digest_layers.iter().map(|l| l.len()).collect::<Vec<_>>(), vec![8, 4, 2, 1]);
    let mut session = Poseidon2GpuSession::new();
    assert_eq!(tree.digest_layers[3][0], commit_root_via_gpu_mixed(&mut session, matrices));
}

#[test]
fn a_run_follows_whatever_permutation_replies() {
    let one = BabyBear::from_int(1);
    let two = BabyBear::from_int(2);
    let mut run = CommitRun::begin(vec![Matrix { rows: vec![vec![one], vec![two]] }]);
    // The reply adds one to every limb.
    while let Some(batch) = run.batch() {
        let out: Vec<u32> = batch.iter().map(|x| x + 1).collect();
        run.accept(&out);
    }
    let tree = run.finish();
    let limbs = |d: [BabyBear; 8]| d.map(|x| x.as_canonical_u32());
    assert_eq!(limbs(tree.digest_layers[0][0]), [2, 1, 1, 1, 1, 1, 1, 1]);
    assert_eq!(limbs(tree.digest_layers[0][1]), [3, 1, 1, 1, 1, 1, 1, 1]);
    assert_eq!(limbs(tree.digest_layers[1][0]), [3, 2, 2, 2, 2, 2, 2, 2]);
}
