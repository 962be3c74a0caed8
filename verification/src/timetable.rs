//! Which batch of a commitment comes when, and what it holds.
#[allow(unused_imports)]
use crate::batch::{
    halved, hashed, is_halving_batch, is_pairing_batch, is_sponge_batch, longest,
};
#[allow(unused_imports)]
use crate::commit::{
    after_rows, batches_below, commit_batches, is_phase_batch, layer_batches, level_len,
    level_steps, next_phase, phase_after, start_rows, Phase,
};
#[allow(unused_imports)]
use crate::hash::steps;
#[allow(unused_imports)]
use crate::pointwise::{
    law_halvings_divide, law_longest, law_power_exponent, lemma_tallest_table,
};
#[allow(unused_imports)]
use crate::tree::{heights, lemma_depth, level_rows, tallest, tree_layers};
#[allow(unused_imports)]
use vstd::arithmetic::power2::{lemma_pow2_pos, pow2};
use vstd::prelude::*;

verus! {

/// Layer `l` over `2^d` leaves takes one batch for each eight limbs, rounded up, of the
/// longest row that enters it. Above the leaves it takes one batch more to halve the layer
/// below, and where rows enter another one to join them.
pub proof fn law_batches_of_a_layer(ts: Seq<Seq<Seq<u32>>>, d: nat, l: nat, width: nat)
    requires
        forall|i: int| 0 <= i < ts.len() ==> #[trigger] ts[i].len() <= pow2(d),
        exists|i: int| 0 <= i < ts.len() && #[trigger] ts[i].len() == pow2(d),
        l <= d,
        forall|r: int|
            0 <= r < pow2(d) / pow2(l) ==> (#[trigger] level_rows(ts, pow2(d) / pow2(l))[r]).len()
                <= width,
        exists|r: int|
            0 <= r < pow2(d) / pow2(l) && (#[trigger] level_rows(
                ts,
                pow2(d) / pow2(l),
            )[r]).len() == width,
    ensures
        level_len(ts, l) == pow2(d) / pow2(l),
        level_steps(ts, l) == (width + 7) / 8,
        batches_below(ts, 0) == 0,
        commit_batches(ts) == batches_below(ts, d + 1),
        batches_below(ts, l + 1) == batches_below(ts, l) + if l == 0 {
            (width + 7) / 8
        } else if exists|i: int|
            0 <= i < ts.len() && #[trigger] ts[i].len() == pow2(d) / pow2(l) {
            (width + 7) / 8 + 2
        } else {
            1
        },
{
    let top = pow2(d);
    lemma_tallest_table(ts, top);
    law_power_exponent(d);
    law_halvings_divide(top, l);
    let len = top / pow2(l);
    let rows = level_rows(ts, len);
    assert forall|r: int| 0 <= r < rows.len() implies #[trigger] rows[r].len() <= width by {}
    let r = choose|r: int| 0 <= r < len && (#[trigger] level_rows(ts, len)[r]).len() == width;
    assert(rows[r].len() == width);
    law_longest(rows, width);
    assert(level_steps(ts, l) == (width + 7) / 8);
    if heights(ts).contains(len) {
        let i = choose|i: int| 0 <= i < ts.len() && heights(ts)[i] == len;
        assert(ts[i].len() == len);
    } else {
        assert forall|i: int| 0 <= i < ts.len() implies #[trigger] ts[i].len() != len by {
            assert(heights(ts)[i] != len);
        }
    }
}

/// Once the rows of a layer are taken up, their steps follow one another.
proof fn lemma_steps_follow(ts: Seq<Seq<Seq<u32>>>, l: nat, b: nat, s: nat)
    requires
        phase_after(ts, b) == start_rows(ts, l),
        s <= level_steps(ts, l),
    ensures
        phase_after(ts, b + s) == if s < level_steps(ts, l) {
            Phase::Hash { level: l, step: s }
        } else {
            after_rows(ts, l)
        },
    decreases s,
{
    if s > 0 {
        lemma_steps_follow(ts, l, b, (s - 1) as nat);
        assert((b + s) - 1 == b + (s - 1));
    }
}

/// Layer `l` is halved as soon as the layers below are built.
proof fn lemma_layer_starts(ts: Seq<Seq<Seq<u32>>>, d: nat, l: nat)
    requires
        tallest(heights(ts)) == pow2(d),
        1 <= l <= d,
    ensures
        phase_after(ts, batches_below(ts, l)) == (Phase::Halve { level: l }),
    decreases l,
{
    let k = (l - 1) as nat;
    let b = batches_below(ts, k);
    let n = level_steps(ts, k);
    lemma_pow2_pos(d);
    law_power_exponent(d);
    lemma_depth(pow2(d));
    assert(level_len(ts, k) > 1);
    assert(batches_below(ts, l) == b + layer_batches(ts, k));
    if k == 0 {
        lemma_steps_follow(ts, 0, 0, n);
    } else {
        lemma_layer_starts(ts, d, k);
        assert(phase_after(ts, b + 1) == next_phase(ts, phase_after(ts, b)));
        if heights(ts).contains(level_len(ts, k)) {
            lemma_steps_follow(ts, k, b + 1, n);
            assert(phase_after(ts, b + 1 + n) == (Phase::Join { level: k }));
            assert(phase_after(ts, b + 1 + n + 1) == next_phase(ts, phase_after(ts, b + 1 + n)));
        }
    }
}

/// The order of the batches: first the steps over the leaves' rows. Then for each layer
/// above, from below, the batch that halves the layer under it; and where rows enter, the
/// steps over those rows and the batch that joins them.
pub proof fn law_order_of_batches(ts: Seq<Seq<Seq<u32>>>, d: nat, l: nat, s: nat)
    requires
        forall|i: int| 0 <= i < ts.len() ==> #[trigger] ts[i].len() <= pow2(d),
        exists|i: int| 0 <= i < ts.len() && #[trigger] ts[i].len() == pow2(d),
        1 <= l <= d,
    ensures
        s < level_steps(ts, 0) ==> phase_after(ts, s) == (Phase::Hash { level: 0, step: s }),
        phase_after(ts, batches_below(ts, l)) == (Phase::Halve { level: l }),
        (exists|i: int| 0 <= i < ts.len() && #[trigger] ts[i].len() == pow2(d) / pow2(l)) ==> {
            &&& s < level_steps(ts, l) ==> phase_after(ts, batches_below(ts, l) + 1 + s) == (
            Phase::Hash { level: l, step: s })
            &&& phase_after(ts, batches_below(ts, l) + 1 + level_steps(ts, l)) == (Phase::Join {
                level: l,
            })
        },
{
    let b = batches_below(ts, l);
    lemma_tallest_table(ts, pow2(d));
    law_halvings_divide(pow2(d), l);
    lemma_layer_starts(ts, d, l);
    if s < level_steps(ts, 0) {
        lemma_steps_follow(ts, 0, 0, s);
    }
    if exists|i: int| 0 <= i < ts.len() && #[trigger] ts[i].len() == pow2(d) / pow2(l) {
        let i = choose|i: int| 0 <= i < ts.len() && #[trigger] ts[i].len() == pow2(d) / pow2(l);
        assert(heights(ts)[i] == level_len(ts, l));
        assert(phase_after(ts, b + 1) == next_phase(ts, phase_after(ts, b)));
        if s < level_steps(ts, l) {
            lemma_steps_follow(ts, l, b + 1, s);
        }
        lemma_steps_follow(ts, l, b + 1, level_steps(ts, l));
    }
}

/// What the batch of each phase holds: the states of the rows that enter the layer, the
/// layer below, or the halved layer along with the digests of the rows.
pub proof fn law_batch_of_a_phase(
    p: spec_fn(Seq<u32>) -> Seq<u32>,
    ts: Seq<Seq<Seq<u32>>>,
    d: nat,
    l: nat,
    s: nat,
    flat: Seq<u32>,
)
    requires
        forall|i: int| 0 <= i < ts.len() ==> #[trigger] ts[i].len() <= pow2(d),
        exists|i: int| 0 <= i < ts.len() && #[trigger] ts[i].len() == pow2(d),
        l <= d,
    ensures
        is_phase_batch(p, ts, Phase::Hash { level: l, step: s }, flat) <==> is_sponge_batch(
            p,
            level_rows(ts, pow2(d) / pow2(l)),
            s,
            flat,
        ),
        l > 0 ==> {
            let below = tree_layers(p, ts)[l - 1];
            let rows = level_rows(ts, pow2(d) / pow2(l));
            &&& is_phase_batch(p, ts, Phase::Halve { level: l }, flat) <==> is_halving_batch(
                below,
                flat,
            )
            &&& is_phase_batch(p, ts, Phase::Join { level: l }, flat) <==> is_pairing_batch(
                halved(p, below),
                hashed(p, rows),
                flat,
            )
        },
{
    lemma_tallest_table(ts, pow2(d));
    law_power_exponent(d);
    law_halvings_divide(pow2(d), l);
}

} // verus!
