//! Committing to matrices as a sequence of batches to permute.
//!
//! A `CommitRun` hands out one flat batch of states at a time and takes the permuted
//! batch back, until every layer of the tree is known. Whoever drives it decides where
//! the permutations are computed.
#[allow(unused_imports)]
use crate::batch::{
    halved, hashed, is_halving_batch, is_pairing_batch, is_sponge_batch, lemma_halved,
    lemma_paired, longest,
};
use crate::batch::{pack_halving, pack_pairing, permuted, unpack, SpongeBatch};
use crate::dispatch::Poseidon2GpuSession;
#[allow(unused_imports)]
use crate::dispatch::{adds, is_permuted};
#[allow(unused_imports)]
use crate::field::is_canonical;
use crate::gpu_merkle::{has_height, joined_rows, max_height, Matrix};
#[allow(unused_imports)]
use crate::gpu_merkle::tables;
use crate::gpu_mmcs::GpuMerkleTree;
#[allow(unused_imports)]
use crate::gpu_mmcs::lemma_opens;
use crate::hash::Digest;
#[allow(unused_imports)]
use crate::hash::{digests, poseidon2, steps};
#[allow(unused_imports)]
use crate::tree::{
    depth, halvings, heights, is_committable, layer_limbs, lemma_depth, lemma_layer_len,
    lemma_top, level_rows, tallest, tree_layer, tree_layers,
};
use vstd::prelude::*;

verus! {

/// What a commitment is waiting for.
pub enum Phase {
    /// Step `step` over the rows that enter layer `level`.
    Hash { level: nat, step: nat },
    /// The layer below `level`, compressed pair by pair.
    Halve { level: nat },
    /// The halved layer and the row digests of layer `level`, compressed digest by digest.
    Join { level: nat },
    /// Nothing: every layer is known.
    Done,
}

/// The number of nodes in layer `l`.
pub open spec fn level_len(ts: Seq<Seq<Seq<u32>>>, l: nat) -> nat {
    halvings(tallest(heights(ts)), l)
}

/// The number of sponge steps over the rows that enter layer `l`.
pub open spec fn level_steps(ts: Seq<Seq<Seq<u32>>>, l: nat) -> nat {
    steps(longest(level_rows(ts, level_len(ts, l))))
}

/// The phase after layer `l` is known.
pub open spec fn after_layer(ts: Seq<Seq<Seq<u32>>>, l: nat) -> Phase {
    if level_len(ts, l) <= 1 {
        Phase::Done
    } else {
        Phase::Halve { level: l + 1 }
    }
}

/// The phase after the rows that enter layer `l` are hashed.
pub open spec fn after_rows(ts: Seq<Seq<Seq<u32>>>, l: nat) -> Phase {
    if l == 0 {
        after_layer(ts, l)
    } else {
        Phase::Join { level: l }
    }
}

/// The phase in which the rows that enter layer `l` are taken up. Rows without limbs
/// need no step.
pub open spec fn start_rows(ts: Seq<Seq<Seq<u32>>>, l: nat) -> Phase {
    if level_steps(ts, l) == 0 {
        after_rows(ts, l)
    } else {
        Phase::Hash { level: l, step: 0 }
    }
}

/// The phase that follows once the batch of a phase has been permuted.
pub open spec fn next_phase(ts: Seq<Seq<Seq<u32>>>, phase: Phase) -> Phase {
    match phase {
        Phase::Hash { level, step } => if step + 1 < level_steps(ts, level) {
            Phase::Hash { level, step: step + 1 }
        } else {
            after_rows(ts, level)
        },
        Phase::Halve { level } => if heights(ts).contains(level_len(ts, level)) {
            start_rows(ts, level)
        } else {
            after_layer(ts, level)
        },
        Phase::Join { level } => after_layer(ts, level),
        Phase::Done => Phase::Done,
    }
}

/// The batch that a phase dispatches, where `p` computes the permutations.
pub open spec fn is_phase_batch(
    p: spec_fn(Seq<u32>) -> Seq<u32>,
    ts: Seq<Seq<Seq<u32>>>,
    phase: Phase,
    flat: Seq<u32>,
) -> bool {
    match phase {
        Phase::Hash { level, step } => is_sponge_batch(
            p,
            level_rows(ts, level_len(ts, level)),
            step,
            flat,
        ),
        Phase::Halve { level } => is_halving_batch(tree_layer(p, ts, (level - 1) as nat), flat),
        Phase::Join { level } => is_pairing_batch(
            halved(p, tree_layer(p, ts, (level - 1) as nat)),
            hashed(p, level_rows(ts, level_len(ts, level))),
            flat,
        ),
        Phase::Done => flat.len() == 0,
    }
}

/// The stage of a run without its counters.
#[derive(Clone, Copy, PartialEq, Eq, Structural)]
enum Stage {
    Hash,
    Halve,
    Join,
    Done,
}

/// A commitment under way.
pub struct CommitRun {
    matrices: Vec<Matrix>,
    /// The layers that are known.
    layers: Vec<Vec<Digest>>,
    /// The number of nodes in the layer that is being built.
    len: usize,
    stage: Stage,
    /// The rows that enter the layer.
    sponge: SpongeBatch,
    /// The layer below, halved, while rows are hashed for it.
    half: Vec<Digest>,
    /// The batch to permute, outside of `Stage::Hash`.
    flat: Vec<u32>,
}

impl CommitRun {
    /// The matrices that are committed to.
    pub closed spec fn matrices(self) -> Seq<Matrix> {
        self.matrices@
    }

    /// What the run is waiting for.
    pub closed spec fn phase(self) -> Phase {
        match self.stage {
            Stage::Hash => Phase::Hash { level: self.layers@.len(), step: self.sponge.step() },
            Stage::Halve => Phase::Halve { level: self.layers@.len() },
            Stage::Join => Phase::Join { level: self.layers@.len() },
            Stage::Done => Phase::Done,
        }
    }

    /// The batch to permute, empty once the run is done.
    pub closed spec fn pending(self) -> Seq<u32> {
        match self.stage {
            Stage::Hash => self.sponge.flat(),
            Stage::Halve => self.flat@,
            Stage::Join => self.flat@,
            Stage::Done => Seq::empty(),
        }
    }

    spec fn ts(self) -> Seq<Seq<Seq<u32>>> {
        tables(self.matrices@)
    }

    /// The known layers have the right lengths.
    spec fn shaped(self) -> bool {
        &&& is_committable(self.ts())
        &&& self.layers@.len() <= depth(tallest(heights(self.ts()))) + 1
        &&& forall|l: int|
            0 <= l < self.layers@.len() ==> (#[trigger] self.layers@[l])@.len() == level_len(
                self.ts(),
                l as nat,
            )
    }

    /// A layer is being built.
    spec fn building(self) -> bool {
        &&& self.shaped()
        &&& self.layers@.len() <= depth(tallest(heights(self.ts())))
        &&& self.len == level_len(self.ts(), self.layers@.len())
    }

    /// Rows enter the layer: there are some of its length, and the layer below is halved.
    spec fn entering(self) -> bool {
        self.layers@.len() > 0 ==> {
            &&& self.half@.len() == self.len
            &&& heights(self.ts()).contains(self.len as nat)
        }
    }

    /// The fields fit the stage.
    pub closed spec fn wf(self) -> bool {
        match self.stage {
            Stage::Hash => {
                &&& self.building()
                &&& self.sponge.wf()
                &&& self.sponge.rows() == level_rows(self.ts(), self.len as nat)
                &&& self.sponge.step() < self.sponge.total()
                &&& self.entering()
            },
            Stage::Halve => {
                &&& self.building()
                &&& self.layers@.len() > 0
                &&& self.flat@.len() == 16 * self.len
            },
            Stage::Join => {
                &&& self.building()
                &&& self.layers@.len() > 0
                &&& heights(self.ts()).contains(self.len as nat)
                &&& self.flat@.len() == 16 * self.len
            },
            Stage::Done => {
                &&& self.shaped()
                &&& self.layers@.len() == depth(tallest(heights(self.ts()))) + 1
            },
        }
    }

    /// The known layers are those that `p` gives.
    spec fn layers_track(self, p: spec_fn(Seq<u32>) -> Seq<u32>) -> bool {
        forall|l: int|
            0 <= l < self.layers@.len() ==> digests((#[trigger] self.layers@[l])@) == tree_layer(
                p,
                self.ts(),
                l as nat,
            )
    }

    /// The halved layer is the one that `p` gives.
    spec fn half_tracks(self, p: spec_fn(Seq<u32>) -> Seq<u32>) -> bool {
        self.layers@.len() > 0 ==> digests(self.half@) == halved(
            p,
            tree_layer(p, self.ts(), (self.layers@.len() - 1) as nat),
        )
    }

    /// Everything that the run holds is what it is where `p` computes the permutations.
    pub closed spec fn tracks(self, p: spec_fn(Seq<u32>) -> Seq<u32>) -> bool {
        &&& self.layers_track(p)
        &&& self.stage == Stage::Hash ==> self.half_tracks(p)
        &&& is_phase_batch(p, self.ts(), self.phase(), self.pending())
    }

    /// Adds a layer and takes up the one above, or ends.
    fn push_layer(&mut self, layer: Vec<Digest>)
        requires
            old(self).building(),
            layer@.len() == old(self).len,
        ensures
            final(self).matrices@ == old(self).matrices@,
            final(self).wf(),
            final(self).phase() == after_layer(old(self).ts(), old(self).layers@.len()),
            is_canonical(final(self).pending()),
            forall|p: spec_fn(Seq<u32>) -> Seq<u32>|
                #![trigger final(self).tracks(p)]
                old(self).layers_track(p) && digests(layer@) == tree_layer(
                    p,
                    old(self).ts(),
                    old(self).layers@.len(),
                ) ==> final(self).tracks(p),
    {
        let ghost me = *self;
        let ghost top = tallest(heights(self.ts()));
        proof {
            lemma_top(self.ts());
            lemma_depth(top);
        }
        if layer.len() <= 1 {
            self.layers.push(layer);
            self.stage = Stage::Done;
        } else {
            self.flat = pack_halving(layer.as_slice());
            self.layers.push(layer);
            self.len = self.len / 2;
            self.stage = Stage::Halve;
        }
        proof {
            assert forall|p: spec_fn(Seq<u32>) -> Seq<u32>|
                me.layers_track(p) && digests(layer@) == tree_layer(
                    p,
                    me.ts(),
                    me.layers@.len(),
                ) implies #[trigger] self.tracks(p) by {
                assert forall|l: int| 0 <= l < self.layers@.len() implies digests(
                    (#[trigger] self.layers@[l])@,
                ) == tree_layer(p, self.ts(), l as nat) by {
                    if l < me.layers@.len() {
                        assert(self.layers@[l] == me.layers@[l]);
                    }
                }
            }
        }
    }

    /// Uses the digests of the rows, all of which are used up.
    fn finish_rows(&mut self)
        requires
            old(self).building(),
            old(self).sponge.wf(),
            old(self).sponge.rows() == level_rows(old(self).ts(), old(self).len as nat),
            old(self).sponge.step() == old(self).sponge.total(),
            old(self).entering(),
        ensures
            final(self).matrices@ == old(self).matrices@,
            final(self).wf(),
            final(self).phase() == after_rows(old(self).ts(), old(self).layers@.len()),
            is_canonical(final(self).pending()),
            forall|p: spec_fn(Seq<u32>) -> Seq<u32>|
                #![trigger final(self).tracks(p)]
                old(self).layers_track(p) && old(self).half_tracks(p) && old(self).sponge.tracks(p)
                    ==> final(self).tracks(p),
    {
        let ghost me = *self;
        let row_digests = self.sponge.digests();
        if self.layers.len() == 0 {
            self.push_layer(row_digests);
        } else {
            self.flat = pack_pairing(self.half.as_slice(), row_digests.as_slice());
            self.stage = Stage::Join;
        }
        proof {
            assert forall|p: spec_fn(Seq<u32>) -> Seq<u32>|
                me.layers_track(p) && me.half_tracks(p) && me.sponge.tracks(
                    p,
                ) implies #[trigger] self.tracks(p) by {
                assert(digests(row_digests@) == hashed(p, me.sponge.rows()));
            }
        }
    }

    /// Takes up the rows that enter the layer.
    fn take_rows(&mut self)
        requires
            old(self).building(),
            old(self).entering(),
        ensures
            final(self).matrices@ == old(self).matrices@,
            final(self).wf(),
            final(self).phase() == start_rows(old(self).ts(), old(self).layers@.len()),
            is_canonical(final(self).pending()),
            forall|p: spec_fn(Seq<u32>) -> Seq<u32>|
                #![trigger final(self).tracks(p)]
                old(self).layers_track(p) && old(self).half_tracks(p) ==> final(self).tracks(p),
    {
        let ghost me = *self;
        self.sponge = SpongeBatch::new(joined_rows(self.matrices.as_slice(), self.len));
        self.stage = Stage::Hash;
        let ghost taken = *self;
        if self.sponge.is_settled() {
            self.finish_rows();
        }
        proof {
            assert forall|p: spec_fn(Seq<u32>) -> Seq<u32>|
                me.layers_track(p) && me.half_tracks(p) implies #[trigger] self.tracks(p) by {
                assert(taken.sponge.tracks(p));
                assert(taken.layers_track(p));
                assert(taken.half_tracks(p));
            }
        }
    }

    /// Starts a commitment to `matrices`.
    pub fn begin(matrices: Vec<Matrix>) -> (r: CommitRun)
        requires
            is_committable(tables(matrices@)),
        ensures
            r.wf(),
            r.matrices() == matrices@,
            r.phase() == start_rows(tables(matrices@), 0),
            is_canonical(r.pending()),
            forall|p: spec_fn(Seq<u32>) -> Seq<u32>| #[trigger] r.tracks(p),
    {
        let len: usize = max_height(matrices.as_slice());
        let sponge = SpongeBatch::new(Vec::new());
        let mut run = CommitRun {
            matrices,
            layers: Vec::new(),
            len,
            stage: Stage::Hash,
            sponge,
            half: Vec::new(),
            flat: Vec::new(),
        };
        let ghost fresh = run;
        run.take_rows();
        proof {
            assert forall|p: spec_fn(Seq<u32>) -> Seq<u32>| #[trigger] run.tracks(p) by {
                assert(fresh.layers_track(p));
                assert(fresh.half_tracks(p));
            }
        }
        run
    }

    /// The batch to permute next, or nothing once every layer is known.
    pub fn batch(&self) -> (r: Option<&[u32]>)
        requires
            self.wf(),
        ensures
            r is Some <==> self.phase() != Phase::Done,
            r matches Some(flat) ==> {
                &&& flat@ == self.pending()
                &&& flat@.len() % 16 == 0
                &&& flat@.len() > 0
                &&& forall|p: spec_fn(Seq<u32>) -> Seq<u32>| #[trigger]
                    self.tracks(p) ==> is_phase_batch(
                        p,
                        tables(self.matrices()),
                        self.phase(),
                        flat@,
                    )
            },
    {
        proof {
            lemma_top(self.ts());
            lemma_depth(tallest(heights(self.ts())));
        }
        match self.stage {
            Stage::Hash => Some(self.sponge.batch()),
            Stage::Halve => Some(self.flat.as_slice()),
            Stage::Join => Some(self.flat.as_slice()),
            Stage::Done => None,
        }
    }

    /// Takes the permuted batch and moves on to the next phase. Whatever `p` the batch
    /// was permuted with, the run goes on holding what `p` gives, and as long as the
    /// replies are canonical so are the batches.
    pub fn accept(&mut self, out: &[u32])
        requires
            old(self).wf(),
            old(self).phase() != Phase::Done,
            out@.len() == old(self).pending().len(),
        ensures
            final(self).wf(),
            final(self).matrices() == old(self).matrices(),
            final(self).phase() == next_phase(tables(old(self).matrices()), old(self).phase()),
            is_canonical(old(self).pending()) && is_canonical(out@) ==> is_canonical(
                final(self).pending(),
            ),
            forall|p: spec_fn(Seq<u32>) -> Seq<u32>|
                #![trigger final(self).tracks(p)]
                old(self).tracks(p) && is_permuted(p, old(self).pending(), out@)
                    ==> final(self).tracks(p),
    {
        let ghost me = *self;
        match self.stage {
            Stage::Hash => {
                self.sponge.accept(out);
                let ghost taken = *self;
                if self.sponge.is_settled() {
                    self.finish_rows();
                }
                proof {
                    assert forall|p: spec_fn(Seq<u32>) -> Seq<u32>|
                        me.tracks(p) && is_permuted(
                            p,
                            me.pending(),
                            out@,
                        ) implies #[trigger] self.tracks(p) by {
                        assert(me.sponge.tracks(p));
                        assert(taken.sponge.tracks(p));
                        assert(taken.layers_track(p));
                        assert(taken.half_tracks(p));
                    }
                }
            },
            Stage::Halve => {
                let half = unpack(out);
                let ghost halves = digests(half@);
                if has_height(self.matrices.as_slice(), self.len) {
                    self.half = half;
                    let ghost taken = *self;
                    self.take_rows();
                    proof {
                        assert forall|p: spec_fn(Seq<u32>) -> Seq<u32>|
                            me.tracks(p) && is_permuted(
                                p,
                                me.pending(),
                                out@,
                            ) implies #[trigger] self.tracks(p) by {
                            let below = tree_layer(p, me.ts(), (me.layers@.len() - 1) as nat);
                            lemma_layer_len(p, me.ts(), (me.layers@.len() - 1) as nat);
                            lemma_halved(p, below, me.flat@, out@, halves);
                            assert(taken.layers_track(p));
                            assert(taken.half_tracks(p));
                        }
                    }
                } else {
                    self.push_layer(half);
                    proof {
                        assert forall|p: spec_fn(Seq<u32>) -> Seq<u32>|
                            me.tracks(p) && is_permuted(
                                p,
                                me.pending(),
                                out@,
                            ) implies #[trigger] self.tracks(p) by {
                            let below = tree_layer(p, me.ts(), (me.layers@.len() - 1) as nat);
                            lemma_layer_len(p, me.ts(), (me.layers@.len() - 1) as nat);
                            lemma_halved(p, below, me.flat@, out@, halves);
                            assert(me.layers_track(p));
                        }
                    }
                }
            },
            Stage::Join => {
                let layer = unpack(out);
                let ghost nodes = digests(layer@);
                self.push_layer(layer);
                proof {
                    assert forall|p: spec_fn(Seq<u32>) -> Seq<u32>|
                        me.tracks(p) && is_permuted(
                            p,
                            me.pending(),
                            out@,
                        ) implies #[trigger] self.tracks(p) by {
                        let below = tree_layer(p, me.ts(), (me.layers@.len() - 1) as nat);
                        lemma_layer_len(p, me.ts(), (me.layers@.len() - 1) as nat);
                        lemma_paired(
                            p,
                            halved(p, below),
                            hashed(p, level_rows(me.ts(), me.len as nat)),
                            me.flat@,
                            out@,
                            nodes,
                        );
                        assert(me.layers_track(p));
                    }
                }
            },
            Stage::Done => {},
        }
    }

    /// The tree, once every layer is known. It can be opened at every row of the tallest
    /// matrix, whatever permutation built it.
    pub fn finish(self) -> (r: GpuMerkleTree)
        requires
            self.wf(),
            self.phase() == Phase::Done,
        ensures
            r.leaves@ == self.matrices(),
            r.digest_layers@.len() == depth(tallest(heights(tables(self.matrices())))) + 1,
            forall|l: int|
                0 <= l < r.digest_layers@.len() ==> (#[trigger] r.digest_layers@[l])@.len()
                    == level_len(tables(self.matrices()), l as nat),
            forall|cap_height: nat, index: nat|
                index < tallest(heights(tables(self.matrices()))) ==> #[trigger] r.opens_at(
                    cap_height,
                    index,
                ),
            forall|p: spec_fn(Seq<u32>) -> Seq<u32>| #[trigger]
                self.tracks(p) ==> layer_limbs(r.digest_layers@) == tree_layers(
                    p,
                    tables(self.matrices()),
                ),
    {
        let ghost me = self;
        let r = GpuMerkleTree { leaves: self.matrices, digest_layers: self.layers };
        proof {
            lemma_opens(r);
            assert forall|p: spec_fn(Seq<u32>) -> Seq<u32>| #[trigger] me.tracks(p) implies layer_limbs(
                r.digest_layers@,
            ) == tree_layers(p, tables(me.matrices())) by {
                assert(layer_limbs(r.digest_layers@) =~= tree_layers(p, me.ts()));
            }
        }
        r
    }
}

/// A phase that a commitment can be in.
pub open spec fn is_reachable(ts: Seq<Seq<Seq<u32>>>, phase: Phase) -> bool {
    let last = depth(tallest(heights(ts)));
    match phase {
        Phase::Hash { level, step } => {
            &&& level <= last
            &&& step < level_steps(ts, level)
            &&& level > 0 ==> heights(ts).contains(level_len(ts, level))
        },
        Phase::Halve { level } => 1 <= level <= last,
        Phase::Join { level } => 1 <= level <= last && heights(ts).contains(level_len(ts, level)),
        Phase::Done => true,
    }
}

/// The layers that are still to be built in a phase.
pub open spec fn layers_left(ts: Seq<Seq<Seq<u32>>>, phase: Phase) -> int {
    let all = depth(tallest(heights(ts))) + 1;
    match phase {
        Phase::Hash { level, step } => all - level,
        Phase::Halve { level } => all - level,
        Phase::Join { level } => all - level,
        Phase::Done => 0,
    }
}

/// The kinds of batch that can still come for the layer being built.
pub open spec fn kinds_left(phase: Phase) -> int {
    match phase {
        Phase::Hash { level, step } => 1,
        Phase::Halve { level } => 2,
        Phase::Join { level } => 0,
        Phase::Done => 0,
    }
}

/// The sponge steps that are still to be taken in a phase.
pub open spec fn steps_left(ts: Seq<Seq<Seq<u32>>>, phase: Phase) -> int {
    match phase {
        Phase::Hash { level, step } => level_steps(ts, level) - step,
        Phase::Halve { level } => 0,
        Phase::Join { level } => 0,
        Phase::Done => 0,
    }
}

/// A commitment comes to its end: each batch leaves fewer layers, or fewer kinds of
/// batch for the same layer, or fewer steps of the same kind.
pub proof fn law_commit_ends(ts: Seq<Seq<Seq<u32>>>, phase: Phase)
    requires
        is_committable(ts),
    ensures
        is_reachable(ts, start_rows(ts, 0)),
        is_reachable(ts, phase) ==> is_reachable(ts, next_phase(ts, phase)),
        is_reachable(ts, phase) && phase != Phase::Done ==> decreases_to!(
            layers_left(ts, phase), kinds_left(phase), steps_left(ts, phase)
                => layers_left(ts, next_phase(ts, phase)), kinds_left(next_phase(ts, phase)),
                   steps_left(ts, next_phase(ts, phase))),
{
    let top = tallest(heights(ts));
    lemma_top(ts);
    lemma_depth(top);
}

/// The batches that building layer `l` takes: one for each sponge step over the rows
/// that enter it, and above the leaves one to halve the layer below and, where rows
/// enter, one to join them.
pub open spec fn layer_batches(ts: Seq<Seq<Seq<u32>>>, l: nat) -> nat {
    if l == 0 {
        level_steps(ts, l)
    } else if heights(ts).contains(level_len(ts, l)) {
        level_steps(ts, l) + 2
    } else {
        1
    }
}

/// The batches that building the layers below `l` takes.
pub open spec fn batches_below(ts: Seq<Seq<Seq<u32>>>, l: nat) -> nat
    decreases l,
{
    if l == 0 {
        0
    } else {
        batches_below(ts, (l - 1) as nat) + layer_batches(ts, (l - 1) as nat)
    }
}

/// The batches that a commitment takes.
pub open spec fn commit_batches(ts: Seq<Seq<Seq<u32>>>) -> nat {
    batches_below(ts, depth(tallest(heights(ts))) + 1)
}

/// The phase after `k` batches.
pub open spec fn phase_after(ts: Seq<Seq<Seq<u32>>>, k: nat) -> Phase
    decreases k,
{
    if k == 0 {
        start_rows(ts, 0)
    } else {
        next_phase(ts, phase_after(ts, (k - 1) as nat))
    }
}

/// The batches that lie behind a phase.
spec fn batches_done(ts: Seq<Seq<Seq<u32>>>, phase: Phase) -> nat {
    match phase {
        Phase::Hash { level, step } => if level == 0 {
            step
        } else {
            batches_below(ts, level) + 1 + step
        },
        Phase::Halve { level } => batches_below(ts, level),
        Phase::Join { level } => batches_below(ts, level) + 1 + level_steps(ts, level),
        Phase::Done => commit_batches(ts),
    }
}

/// Lower layers take no more batches than all of them.
proof fn lemma_batches_below(ts: Seq<Seq<Seq<u32>>>, k: nat, l: nat)
    requires
        k <= l,
    ensures
        batches_below(ts, k) <= batches_below(ts, l),
    decreases l,
{
    if k < l {
        lemma_batches_below(ts, k, (l - 1) as nat);
    }
}

/// Each batch adds one to those behind, and fewer than all are behind while the
/// commitment is not done.
proof fn lemma_batch_step(ts: Seq<Seq<Seq<u32>>>, phase: Phase)
    requires
        is_committable(ts),
        is_reachable(ts, phase),
        phase != Phase::Done,
    ensures
        batches_done(ts, phase) < commit_batches(ts),
        batches_done(ts, next_phase(ts, phase)) == batches_done(ts, phase) + 1,
{
    let top = tallest(heights(ts));
    lemma_top(ts);
    lemma_depth(top);
    let level = match phase {
        Phase::Hash { level, step } => level,
        Phase::Halve { level } => level,
        Phase::Join { level } => level,
        Phase::Done => 0,
    };
    reveal_with_fuel(batches_below, 2);
    assert(batches_below(ts, level + 1) == batches_below(ts, level) + layer_batches(ts, level));
    lemma_batches_below(ts, level + 1, depth(top) + 1);
    assert(level_len(ts, level) <= 1 ==> level == depth(top));
}

/// After `k` batches, `k` of them lie behind.
proof fn lemma_batches_done(ts: Seq<Seq<Seq<u32>>>, k: nat)
    requires
        is_committable(ts),
        k <= commit_batches(ts),
    ensures
        is_reachable(ts, phase_after(ts, k)),
        batches_done(ts, phase_after(ts, k)) == k,
        k == commit_batches(ts) <==> phase_after(ts, k) == Phase::Done,
    decreases k,
{
    if k > 0 {
        let before = phase_after(ts, (k - 1) as nat);
        lemma_batches_done(ts, (k - 1) as nat);
        law_commit_ends(ts, before);
        lemma_batch_step(ts, before);
    } else {
        let top = tallest(heights(ts));
        lemma_top(ts);
        lemma_depth(top);
        law_commit_ends(ts, Phase::Done);
        reveal_with_fuel(batches_below, 2);
        assert(halvings(top, 0) == top);
    }
    if phase_after(ts, k) != Phase::Done {
        lemma_batch_step(ts, phase_after(ts, k));
    }
}

/// A commitment takes exactly `commit_batches` batches: it is done after that many, and
/// not before.
pub proof fn law_batch_count(ts: Seq<Seq<Seq<u32>>>, k: nat)
    requires
        is_committable(ts),
        k <= commit_batches(ts),
    ensures
        phase_after(ts, k) == Phase::Done <==> k == commit_batches(ts),
{
    lemma_batches_done(ts, k);
}

/// Commits to `matrices` with every permutation computed by `session`, one batch for
/// each phase of the commitment.
pub fn run_commit(
    session: &mut Poseidon2GpuSession,
    matrices: Vec<Matrix>,
) -> (r: GpuMerkleTree)
    requires
        is_committable(tables(matrices@)),
    ensures
        r.leaves@ == matrices@,
        layer_limbs(r.digest_layers@) == tree_layers(poseidon2(), tables(matrices@)),
        forall|cap_height: nat, index: nat|
            index < tallest(heights(tables(matrices@))) ==> #[trigger] r.opens_at(
                cap_height,
                index,
            ),
        adds(
            old(session).dispatched(),
            final(session).dispatched(),
            commit_batches(tables(matrices@)),
        ),
        forall|j: int|
            old(session).dispatched().len() <= j < final(session).dispatched().len() ==> {
                &&& is_phase_batch(
                    poseidon2(),
                    tables(matrices@),
                    phase_after(
                        tables(matrices@),
                        (j - old(session).dispatched().len()) as nat,
                    ),
                    #[trigger] final(session).dispatched()[j],
                )
                &&& is_canonical(final(session).dispatched()[j])
            },
{
    let ghost ts = tables(matrices@);
    let ghost kept = matrices@;
    let ghost before = session.dispatched();
    let ghost mut sent: nat = 0;
    let mut run = CommitRun::begin(matrices);
    loop
        invariant
            run.wf(),
            run.matrices() == kept,
            ts == tables(kept),
            is_committable(ts),
            run.tracks(poseidon2()),
            is_canonical(run.pending()),
            sent <= commit_batches(ts),
            run.phase() == phase_after(ts, sent),
            adds(before, session.dispatched(), sent),
            forall|j: int|
                before.len() <= j < session.dispatched().len() ==> {
                    &&& is_phase_batch(
                        poseidon2(),
                        ts,
                        phase_after(ts, (j - before.len()) as nat),
                        #[trigger] session.dispatched()[j],
                    )
                    &&& is_canonical(session.dispatched()[j])
                },
        ensures
            run.phase() == Phase::Done,
        decreases commit_batches(ts) - sent,
    {
        proof {
            law_batch_count(ts, sent);
        }
        let ghost log = session.dispatched();
        let out = match run.batch() {
            Some(flat) => permuted(session, flat),
            None => {
                break;
            },
        };
        assert(session.dispatched().take(before.len() as int) =~= log.take(before.len() as int));
        run.accept(out.as_slice());
        proof {
            sent = sent + 1;
        }
    }
    proof {
        law_batch_count(ts, sent);
    }
    run.finish()
}

} // verus!
