use p3_baby_bear::default_babybear_poseidon2_16;
use p3_field::integers::QuotientMap;
use p3_field::PrimeField32;
use p3_poseidon2_cuda::{
    canonical_to_mont, mont_to_canonical, permute_batch, raw_gpu_call, BabyBear,
    Poseidon2GpuSession,
};
use p3_symmetric::Permutation;
use rand::Rng;

type P3 = p3_baby_bear::BabyBear;

const PLONKY3_BB16_INPUT_RAW: [u32; 16] = [
    894848333, 1437655012, 1200606629, 1690012884, 71131202, 1749206695, 1717947831, 120589055,
    19776022, 42382981, 1831865506, 724844064, 171220207, 1299207443, 227047920, 1783754913,
];
const PLONKY3_BB16_EXPECTED_RAW: [u32; 16] = [
    516096821, 90309867, 1101817252, 1660784290, 360715097, 1789519026, 1788910906, 563338433,
    319524748, 1741414159, 1650859320, 894311162, 1121347488, 1692793758, 1052633829, 1344246938,
];

fn to_bb_arr(raw: [u32; 16]) -> [BabyBear; 16] {
    raw.map(BabyBear::from_int)
}

#[test]
fn single_perm_byte_identical_to_plonky3() {
    let input = to_bb_arr(PLONKY3_BB16_INPUT_RAW);
    let expected = to_bb_arr(PLONKY3_BB16_EXPECTED_RAW);
    let mut got = [BabyBear::from_int(0); 16];
    permute_batch(&input, &mut got);
    assert_eq!(got, expected, "output differs from the Plonky3 test vector");

    let perm = default_babybear_poseidon2_16();
    let mut p3 = PLONKY3_BB16_INPUT_RAW.map(P3::from_int);
    perm.permute_mut(&mut p3);
    let p3_limbs = p3.map(|x| x.as_canonical_u32());
    assert_eq!(got.map(|x| x.as_canonical_u32()), p3_limbs, "output differs from the Plonky3 permutation");
}

#[test]
fn batch_byte_identical_to_plonky3() {
    let n = 1024;
    let perm = default_babybear_poseidon2_16();
    let mut rng = rand::thread_rng();
    let mut input = vec![BabyBear::from_int(0); 16 * n];
    for x in input.iter_mut() {
        *x = BabyBear::from_int(rng.gen_range(0..2_013_265_921u32));
    }

    let mut p3_out: Vec<P3> = input.iter().map(|x| P3::from_int(x.as_canonical_u32())).collect();
    for chunk in p3_out.chunks_exact_mut(16) {
        let arr: &mut [P3; 16] = chunk.try_into().unwrap();
        perm.permute_mut(arr);
    }

    let mut out = vec![BabyBear::from_int(0); 16 * n];
    permute_batch(&input, &mut out);

    let out_limbs: Vec<u32> = out.iter().map(|x| x.as_canonical_u32()).collect();
    let p3_limbs: Vec<u32> = p3_out.iter().map(|x| x.as_canonical_u32()).collect();
    assert_eq!(out_limbs, p3_limbs, "batched output differs from Plonky3");
}

#[test]
fn session_matches_single_call() {
    let mut batch: Vec<u32> = PLONKY3_BB16_INPUT_RAW.to_vec();
    batch.extend_from_slice(&[7; 16]);
    let mut session = Poseidon2GpuSession::new();
    let mut a = vec![0u32; 32];
    assert_eq!(session.permute_batch_canonical(&batch, &mut a), 0);
    let mut b = vec![0u32; 32];
    assert_eq!(raw_gpu_call(&batch, &mut b), 0);
    assert_eq!(a, b);
    assert_eq!(a[..16], PLONKY3_BB16_EXPECTED_RAW);

    let elements: Vec<BabyBear> = batch.iter().map(|&x| BabyBear::from_int(x)).collect();
    let mut c = vec![BabyBear::from_int(0); 32];
    session.permute_batch(&elements, &mut c);
    let c_limbs: Vec<u32> = c.iter().map(|x| x.as_canonical_u32()).collect();
    assert_eq!(c_limbs, a);
}

#[test]
fn an_empty_batch_is_permuted_at_once() {
    let mut out: [u32; 0] = [];
    assert_eq!(raw_gpu_call(&[], &mut out), 0);
    let mut elements: [BabyBear; 0] = [];
    permute_batch(&[], &mut elements);
    let mut session = Poseidon2GpuSession::new();
    assert_eq!(session.permute_batch_canonical(&[], &mut out), 0);
    session.permute_batch(&[], &mut elements);
}

#[test]
fn conversion_round_trips_and_reduces() {
    let canon = [0, 1, 42, 2_013_265_920];
    let mut elements = [BabyBear::from_int(5); 4];
    canonical_to_mont(&canon, &mut elements);
    let mut back = [9u32; 4];
    mont_to_canonical(&elements, &mut back);
    assert_eq!(back, canon);

    let mut wrapped = [BabyBear::from_int(0); 3];
    canonical_to_mont(&[2_013_265_921, 2_013_265_926, u32::MAX], &mut wrapped);
    assert_eq!(wrapped.map(|x| x.as_canonical_u32()), [0, 5, 268_435_453]);
}
