use p3_baby_bear::{default_babybear_poseidon2_16, Poseidon2BabyBear};
use p3_commit::Mmcs;
use p3_field::integers::QuotientMap;
use p3_field::{Field, PrimeField32};
use p3_matrix::dense::RowMajorMatrix;
use p3_merkle_tree::MerkleTreeMmcs;
use p3_poseidon2_cuda::gpu_merkle::{commit_root_via_gpu_mixed, Matrix};
use p3_poseidon2_cuda::gpu_mmcs::{
    check_cap_entry, BatchOpening, BatchOpeningRef, Dimensions, GpuMmcsError, GpuPoseidon2Mmcs,
    MerkleCap,
};
use p3_poseidon2_cuda::{BabyBear, Poseidon2GpuSession};
use p3_symmetric::{PaddingFreeSponge, TruncatedPermutation};

type P3 = p3_baby_bear::BabyBear;

type StockMmcs = MerkleTreeMmcs<
    <P3 as Field>::Packing,
    <P3 as Field>::Packing,
    PaddingFreeSponge<Poseidon2BabyBear<16>, 16, 8, 8>,
    TruncatedPermutation<Poseidon2BabyBear<16>, 2, 8, 16>,
    2,
    8,
>;

fn stock_mmcs(cap_height: usize) -> StockMmcs {
    let perm: Poseidon2BabyBear<16> = default_babybear_poseidon2_16();
    let sponge = PaddingFreeSponge::<_, 16, 8, 8>::new(perm.clone());
    let compress = TruncatedPermutation::<_, 2, 8, 16>::new(perm);
    StockMmcs::new(sponge, compress, cap_height)
}

fn make_matrix(n_rows: usize, width: usize, seed: u64) -> Matrix {
    let mut x: u64 = seed;
    let mut rows = Vec::with_capacity(n_rows);
    for _ in 0..n_rows {
        let mut row = Vec::with_capacity(width);
        for _ in 0..width {
            x ^= x << 13;
            x ^= x >> 7;
            x ^= x << 17;
            row.push(BabyBear::from_int((x as u32) % 2_013_265_921));
        }
        rows.push(row);
    }
    Matrix { rows }
}

fn to_stock(m: &Matrix) -> RowMajorMatrix<P3> {
    let flat: Vec<P3> =
        m.rows.iter().flatten().map(|x| P3::from_int(x.as_canonical_u32())).collect();
    RowMajorMatrix::new(flat, m.width())
}

fn stock_limbs(cap: &[[P3; 8]]) -> Vec<[u32; 8]> {
    cap.iter().map(|d| d.map(|x| x.as_canonical_u32())).collect()
}

fn cap_limbs(cap: &MerkleCap) -> Vec<[u32; 8]> {
    cap.roots.iter().map(|d| d.map(|x| x.as_canonical_u32())).collect()
}

fn as_ref(opening: &BatchOpening) -> BatchOpeningRef<'_> {
    BatchOpeningRef {
        opened_values: &opening.opened_values,
        opening_proof: &opening.opening_proof,
    }
}

#[test]
fn commit_matches_stock_single_matrix() {
    let m = make_matrix(64, 8, 0xAAAA);
    let stock = stock_mmcs(0);
    let gpu = GpuPoseidon2Mmcs::new(0);

    let (cap_stock, _pd_stock) = stock.commit(vec![to_stock(&m)]);
    let (cap_gpu, _pd_gpu) = gpu.commit(vec![m]);

    assert_eq!(
        stock_limbs(cap_stock.as_ref()),
        cap_limbs(&cap_gpu),
        "commit cap mismatch (single matrix)"
    );
}

#[test]
fn commit_matches_stock_mixed() {
    let a = make_matrix(256, 8, 0xB1);
    let b = make_matrix(64, 8, 0xB2);
    let c = make_matrix(16, 8, 0xB3);
    let stock = stock_mmcs(0);
    let gpu = GpuPoseidon2Mmcs::new(0);

    let (cap_stock, _) = stock.commit(vec![to_stock(&a), to_stock(&b), to_stock(&c)]);
    let (cap_gpu, _) = gpu.commit(vec![a, b, c]);

    assert_eq!(
        stock_limbs(cap_stock.as_ref()),
        cap_limbs(&cap_gpu),
        "commit cap mismatch (mixed)"
    );
}

#[test]
fn open_verify_roundtrip_single() {
    let m = make_matrix(64, 8, 0xCAFE);
    let gpu = GpuPoseidon2Mmcs::new(0);
    let (commit, prover_data) = gpu.commit(vec![m]);

    for &index in &[0, 1, 31, 32, 63] {
        let opening = gpu.open_batch(index, &prover_data);
        let dims = vec![Dimensions { width: 8, height: 64 }];
        gpu.verify_batch(&commit, &dims, index, as_ref(&opening)).expect("verify failed");
    }
}

#[test]
fn open_verify_roundtrip_mixed() {
    let a = make_matrix(64, 8, 0xDEAD);
    let b = make_matrix(16, 8, 0xBEEF);
    let gpu = GpuPoseidon2Mmcs::new(0);
    let (commit, prover_data) = gpu.commit(vec![a, b]);

    for &index in &[0, 1, 7, 8, 15, 32, 63] {
        let opening = gpu.open_batch(index, &prover_data);
        let dims =
            vec![Dimensions { width: 8, height: 64 }, Dimensions { width: 8, height: 16 }];
        gpu.verify_batch(&commit, &dims, index, as_ref(&opening)).expect("verify failed");
    }
}

#[test]
fn every_index_verifies_under_every_cap() {
    let matrices = vec![make_matrix(2, 3, 1), make_matrix(8, 5, 2), make_matrix(8, 1, 3)];
    let dims = [
        Dimensions { width: 3, height: 2 },
        Dimensions { width: 5, height: 8 },
        Dimensions { width: 1, height: 8 },
    ];
    for cap_height in [0, 1, 2, 3, 4, usize::MAX] {
        let gpu = GpuPoseidon2Mmcs::new(cap_height);
        let (cap, tree) = gpu.commit(matrices.clone());
        let effective = cap_height.min(3);
        assert_eq!(cap.roots.len(), 1 << effective);
        assert_eq!(cap.roots, tree.digest_layers[3 - effective]);
        for index in 0..8 {
            let opening = gpu.open_batch(index, &tree);
            assert_eq!(opening.opening_proof.len(), 3 - effective);
            assert_eq!(opening.opened_values[0], matrices[0].rows[index / 4]);
            assert_eq!(opening.opened_values[1], matrices[1].rows[index]);
            assert_eq!(opening.opened_values[2], matrices[2].rows[index]);
            let mut node = index;
            for (l, other) in opening.opening_proof.iter().enumerate() {
                assert_eq!(*other, tree.digest_layers[l][node ^ 1]);
                node /= 2;
            }
            assert!(gpu.verify_batch(&cap, &dims, index, as_ref(&opening)).is_ok());
        }
    }
}

#[test]
fn caps_match_stock() {
    let matrices = vec![make_matrix(16, 9, 7), make_matrix(4, 2, 8)];
    for cap_height in [0, 1, 2] {
        let (cap_stock, _) =
            stock_mmcs(cap_height).commit(matrices.iter().map(to_stock).collect());
        let (cap_gpu, _) = GpuPoseidon2Mmcs::new(cap_height).commit(matrices.clone());
        assert_eq!(stock_limbs(cap_stock.as_ref()), cap_limbs(&cap_gpu));
    }
}

#[test]
fn openings_match_stock() {
    let matrices = vec![make_matrix(16, 9, 17), make_matrix(4, 2, 18)];
    let stock = stock_mmcs(1);
    let gpu = GpuPoseidon2Mmcs::new(1);
    let (_, stock_data) = stock.commit(matrices.iter().map(to_stock).collect());
    let (_, tree) = gpu.commit(matrices);
    for index in 0..16 {
        let expected = stock.open_batch(index, &stock_data);
        let got = gpu.open_batch(index, &tree);
        let limbs = |rows: &[Vec<BabyBear>]| -> Vec<Vec<u32>> {
            rows.iter().map(|r| r.iter().map(|x| x.as_canonical_u32()).collect()).collect()
        };
        let p3_rows: Vec<Vec<u32>> = expected
            .opened_values
            .iter()
            .map(|r| r.iter().map(|x| x.as_canonical_u32()).collect())
            .collect();
        assert_eq!(limbs(&got.opened_values), p3_rows);
        let path: Vec<[u32; 8]> =
            got.opening_proof.iter().map(|d| d.map(|x| x.as_canonical_u32())).collect();
        assert_eq!(path, stock_limbs(&expected.opening_proof));
    }
}

#[test]
fn the_root_is_the_cap_of_height_zero() {
    let matrices = vec![make_matrix(8, 2, 51), make_matrix(2, 2, 52)];
    let (cap, tree) = GpuPoseidon2Mmcs::new(0).commit(matrices.clone());
    let mut session = Poseidon2GpuSession::new();
    let root = commit_root_via_gpu_mixed(&mut session, matrices.clone());
    assert_eq!(cap.roots, vec![root]);
    assert_eq!(tree.leaves.len(), 2);
    assert_eq!(tree.leaves[1].rows, matrices[1].rows);
}

#[test]
fn committed_matrices_are_handed_out() {
    let matrices = vec![make_matrix(4, 2, 61), make_matrix(1, 3, 62)];
    let gpu = GpuPoseidon2Mmcs::new(0);
    let (_, tree) = gpu.commit(matrices.clone());
    let held = gpu.get_matrices(&tree);
    assert_eq!(held.len(), 2);
    assert_eq!(held[0].rows, matrices[0].rows);
    assert_eq!(held[1].rows, matrices[1].rows);
}

#[test]
fn a_wrong_batch_size_is_refused() {
    let gpu = GpuPoseidon2Mmcs::new(0);
    let (cap, tree) = gpu.commit(vec![make_matrix(4, 2, 71)]);
    let opening = gpu.open_batch(2, &tree);
    let dims = [Dimensions { width: 2, height: 4 }, Dimensions { width: 2, height: 4 }];
    let refused = gpu.verify_batch(&cap, &dims, 2, as_ref(&opening));
    assert!(matches!(refused, Err(GpuMmcsError::WrongBatchSize)));
    let none = gpu.verify_batch(&cap, &[], 2, as_ref(&opening));
    assert!(matches!(none, Err(GpuMmcsError::WrongBatchSize)));
}

#[test]
fn tampering_is_refused() {
    let gpu = GpuPoseidon2Mmcs::new(0);
    let (cap, tree) = gpu.commit(vec![make_matrix(8, 2, 81), make_matrix(2, 2, 82)]);
    let dims = [Dimensions { width: 2, height: 8 }, Dimensions { width: 2, height: 2 }];
    let opening = gpu.open_batch(5, &tree);
    assert!(gpu.verify_batch(&cap, &dims, 5, as_ref(&opening)).is_ok());
    for i in 0..2 {
        let mut bad = opening.clone();
        bad.opened_values[i][1] = BabyBear::from_int(12345);
        let refused = gpu.verify_batch(&cap, &dims, 5, as_ref(&bad));
        assert!(matches!(refused, Err(GpuMmcsError::RootMismatch)));
    }
    for l in 0..3 {
        let mut bad = opening.clone();
        bad.opening_proof[l][0] = BabyBear::from_int(12345);
        let refused = gpu.verify_batch(&cap, &dims, 5, as_ref(&bad));
        assert!(matches!(refused, Err(GpuMmcsError::RootMismatch)));
    }
    let elsewhere = gpu.verify_batch(&cap, &dims, 4, as_ref(&opening));
    assert!(matches!(elsewhere, Err(GpuMmcsError::RootMismatch)));
}

#[test]
fn a_wrong_number_of_siblings_is_refused() {
    // A claimed height of two without a sibling, though the digest would be the right one.
    let gpu = GpuPoseidon2Mmcs::new(0);
    let cap = MerkleCap { roots: vec![[BabyBear::from_int(0); 8]] };
    let values = vec![vec![]];
    let batch = BatchOpeningRef { opened_values: &values, opening_proof: &[] };
    let dims = [Dimensions { width: 0, height: 2 }];
    let refused = gpu.verify_batch(&cap, &dims, 0, batch);
    assert!(matches!(
        refused,
        Err(GpuMmcsError::WrongHeight { expected_proof_len: 1, num_siblings: 0 })
    ));
    // The same opening of a single row is accepted.
    let one = [Dimensions { width: 0, height: 1 }];
    assert!(gpu.verify_batch(&cap, &one, 0, batch).is_ok());

    for (cap_height, expected) in [(0, 3), (1, 2), (2, 1), (3, 0), (9, 0)] {
        let gpu = GpuPoseidon2Mmcs::new(cap_height);
        let (cap, tree) = gpu.commit(vec![make_matrix(8, 2, 101)]);
        let dims = [Dimensions { width: 2, height: 8 }];
        let opening = gpu.open_batch(6, &tree);
        assert!(gpu.verify_batch(&cap, &dims, 6, as_ref(&opening)).is_ok());
        for len in [0, 1, 2, 3, 4, 100] {
            let mut other = opening.clone();
            other.opening_proof.resize(len, [BabyBear::from_int(1); 8]);
            let answer = gpu.verify_batch(&cap, &dims, 6, as_ref(&other));
            match answer {
                Err(GpuMmcsError::WrongHeight { expected_proof_len, num_siblings }) => {
                    assert_ne!(len, expected);
                    assert_eq!(expected_proof_len, expected);
                    assert_eq!(num_siblings, len);
                }
                other => {
                    assert_eq!(len, expected);
                    assert!(other.is_ok());
                }
            }
        }
    }
}

#[test]
fn a_height_that_is_no_layer_is_refused() {
    let gpu = GpuPoseidon2Mmcs::new(0);
    let (cap, tree) = gpu.commit(vec![make_matrix(4, 2, 91)]);
    let opening = gpu.open_batch(1, &tree);
    let first = opening.opened_values[0].clone();
    let tall = Dimensions { width: 2, height: 4 };
    assert!(gpu.verify_batch(&cap, &[tall], 1, as_ref(&opening)).is_ok());
    for second in [vec![], vec![BabyBear::from_int(7)]] {
        let values = vec![first.clone(), second];
        let batch =
            BatchOpeningRef { opened_values: &values, opening_proof: &opening.opening_proof };
        for height in [3, 2, 1, 0] {
            // Heights 2 and 1 are those of layers, but the tree has no such rows.
            let dims = [tall, Dimensions { width: 1, height }];
            let refused = gpu.verify_batch(&cap, &dims, 1, batch);
            assert!(matches!(refused, Err(GpuMmcsError::RootMismatch)));
        }
    }
    // A height that is no layer hides no matrix behind it.
    let values = vec![first, vec![], vec![]];
    let batch = BatchOpeningRef { opened_values: &values, opening_proof: &opening.opening_proof };
    let dims =
        [tall, Dimensions { width: 0, height: 3 }, Dimensions { width: 0, height: 2 }];
    let refused = gpu.verify_batch(&cap, &dims, 1, batch);
    assert!(matches!(refused, Err(GpuMmcsError::RootMismatch)));
}

#[test]
fn claimed_widths_are_not_compared() {
    let gpu = GpuPoseidon2Mmcs::new(0);
    let (cap, tree) = gpu.commit(vec![make_matrix(4, 2, 111)]);
    let opening = gpu.open_batch(3, &tree);
    let dims = [Dimensions { width: 0, height: 4 }];
    assert!(gpu.verify_batch(&cap, &dims, 3, as_ref(&opening)).is_ok());
}

#[test]
fn stock_accepts_what_is_opened() {
    let matrices = vec![make_matrix(4, 2, 121), make_matrix(16, 9, 122), make_matrix(16, 3, 123)];
    let stock_dims: Vec<p3_matrix::Dimensions> = matrices
        .iter()
        .map(|m| p3_matrix::Dimensions { width: m.width(), height: m.height() })
        .collect();
    for cap_height in [0, 1, 2] {
        let stock = stock_mmcs(cap_height);
        let gpu = GpuPoseidon2Mmcs::new(cap_height);
        let (cap, _) = stock.commit(matrices.iter().map(to_stock).collect());
        let (_, tree) = gpu.commit(matrices.clone());
        for index in 0..16 {
            let opening = gpu.open_batch(index, &tree);
            let native = |x: &BabyBear| P3::from_int(x.as_canonical_u32());
            let values: Vec<Vec<P3>> =
                opening.opened_values.iter().map(|r| r.iter().map(native).collect()).collect();
            let path: Vec<[P3; 8]> = opening
                .opening_proof
                .iter()
                .map(|d| d.map(|x| P3::from_int(x.as_canonical_u32())))
                .collect();
            let batch = p3_commit::BatchOpeningRef::new(&values, &path);
            assert!(stock.verify_batch(&cap, &stock_dims, index, batch).is_ok());
        }
    }
}

#[test]
fn a_digest_is_held_against_its_cap_entry() {
    let a = [BabyBear::from_int(1); 8];
    let b = [BabyBear::from_int(2); 8];
    let cap = MerkleCap { roots: vec![a, b] };
    assert!(check_cap_entry(&cap, 0, &a).is_ok());
    assert!(check_cap_entry(&cap, 1, &b).is_ok());
    assert!(matches!(check_cap_entry(&cap, 1, &a), Err(GpuMmcsError::RootMismatch)));
}

#[test]
fn error_texts() {
    assert_eq!(GpuMmcsError::WrongBatchSize.message(), "wrong batch size");
    assert_eq!(GpuMmcsError::WrongWidth.message(), "wrong width");
    let height = GpuMmcsError::WrongHeight { expected_proof_len: 10, num_siblings: 3 };
    assert_eq!(height.message(), "wrong height (expected 10, got 3)");
    assert_eq!(GpuMmcsError::RootMismatch.message(), "root mismatch");
}
