# p3_poseidon2_cuda

A verified library for hashing and committing with the width-16 Poseidon2 permutation
over BabyBear, in batches that fit a GPU.

- `field`: field elements by their canonical representative.
- `hash`: the permutation, the padding-free sponge and the two-to-one compression.
- `dispatch`: flat batches of states, and their permutation on the host.
- `batch`: hashing many rows and compressing many digests, one batch at a time.
- `tree`: the hash tree over matrices of several heights, as a definition.
- `commit`: `CommitRun`, which turns a commitment into a sequence of batches.
- `gpu_merkle`: matrices and the root over them.
- `path`: authentication paths, as a definition, and what holds of them.
- `gpu_mmcs`: the commitment scheme: commit, open, verify.
- `laws`: what holds across these functions.

The permutation is Plonky3's `default_babybear_poseidon2_16`. A device that computes it
drives `CommitRun`: it permutes each batch that the run hands out and passes the result
back. The contract of the run holds for every permutation, so the tree is the one that
the device's permutation defines.

`app` holds the CUDA dispatcher and the impl of `p3_commit::Mmcs`.
