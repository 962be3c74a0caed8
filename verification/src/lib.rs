//! Batched Poseidon2 hashing and Merkle commitment over BabyBear.
pub mod batch;
pub mod commit;
pub mod dispatch;
pub mod field;
pub mod gpu_merkle;
pub mod gpu_mmcs;
pub mod hash;
pub mod laws;
pub mod path;
pub mod pointwise;
pub mod positions;
pub mod timetable;
pub mod tree;

pub use dispatch::{
    canonical_to_mont, mont_to_canonical, permute_batch, raw_gpu_call, Poseidon2GpuSession,
};
pub use field::BabyBear;
