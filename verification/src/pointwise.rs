//! What the definitions of the library come to, entry by entry: in terms of indices,
//! powers of two, concatenation and the permutation alone.
#[allow(unused_imports)]
use crate::batch::{
    halved, hashed, is_halving_batch, is_pairing_batch, is_sponge_batch, longest, paired,
    row_limbs,
};
#[allow(unused_imports)]
use crate::dispatch::{adds, is_permuted, state_at};
#[allow(unused_imports)]
use crate::field::{is_canonical, limbs, reduced, BabyBear, P};
#[allow(unused_imports)]
use crate::gpu_merkle::{tables, Matrix};
#[allow(unused_imports)]
use crate::gpu_mmcs::{decimal, dim_heights, error_text, Dimensions, GpuMmcsError};
#[allow(unused_imports)]
use crate::hash::{
    chunk, compress, digests, lemma_sponge_settles, overwrite, poseidon2, poseidon2_bb16,
    sponge_hash, sponge_input, sponge_state, squeeze, steps, Digest,
};
#[allow(unused_imports)]
use crate::tree::{
    ceil_log2, depth, halvings, heights, is_committable, is_power_of_two, joined, layer_limbs,
    lemma_tallest, level_rows, rows_at, tallest,
};
#[allow(unused_imports)]
use vstd::arithmetic::div_mod::lemma_div_denominator;
#[allow(unused_imports)]
use vstd::arithmetic::power2::{
    lemma_pow2_pos, lemma_pow2_strictly_increases, lemma_pow2_unfold, pow2,
};
use vstd::prelude::*;

verus! {

/// The field has `15 * 2^27 + 1` elements.
pub proof fn law_field_order()
    ensures
        P == 15 * 0x8000000 + 1,
{
}

/// Two to the power of zero is one.
proof fn lemma_pow2_zero()
    ensures
        pow2(0) == 1,
{
    vstd::arithmetic::power2::lemma2_to64();
}

/// Halving `k` times divides by `2^k`, rounding down.
pub proof fn law_halvings_divide(n: nat, k: nat)
    ensures
        pow2(k) > 0,
        halvings(n, k) == n / pow2(k),
    decreases k,
{
    lemma_pow2_pos(k);
    if k == 0 {
        lemma_pow2_zero();
        assert(n / pow2(0) == n) by (nonlinear_arith)
            requires
                pow2(0) == 1,
        ;
    } else {
        let j = (k - 1) as nat;
        law_halvings_divide(n, j);
        lemma_pow2_unfold(k);
        lemma_div_denominator(n as int, pow2(j) as int, 2);
        assert(pow2(j) as int * 2 == pow2(k) as int);
    }
}

/// `depth` is the base-two logarithm rounded down.
pub proof fn law_depth_is_floor_log(n: nat)
    requires
        n >= 1,
    ensures
        pow2(depth(n)) <= n < pow2(depth(n) + 1),
    decreases n,
{
    lemma_pow2_unfold(depth(n) + 1);
    if n == 1 {
        lemma_pow2_zero();
    } else {
        law_depth_is_floor_log(n / 2);
        lemma_pow2_unfold(depth(n));
    }
}

/// `ceil_log2` is the base-two logarithm rounded up, and zero for zero.
pub proof fn law_ceil_log(n: nat)
    ensures
        n <= pow2(ceil_log2(n)),
        ceil_log2(n) > 0 ==> pow2((ceil_log2(n) - 1) as nat) < n,
    decreases n,
{
    lemma_pow2_zero();
    if n > 1 {
        let m = (n + 1) / 2;
        law_ceil_log(m);
        lemma_pow2_unfold(ceil_log2(n));
        if ceil_log2(m) > 0 {
            lemma_pow2_unfold(ceil_log2(m));
        }
    }
}

/// No other exponent lies as close above `n` as the logarithm rounded up.
pub proof fn lemma_ceil_log_unique(n: nat, a: nat)
    requires
        n <= pow2(a),
        a > 0 ==> pow2((a - 1) as nat) < n,
    ensures
        ceil_log2(n) == a,
{
    let c = ceil_log2(n);
    law_ceil_log(n);
    if a < c {
        if a < c - 1 {
            lemma_pow2_strictly_increases(a, (c - 1) as nat);
        }
    } else if c < a {
        if c < a - 1 {
            lemma_pow2_strictly_increases(c, (a - 1) as nat);
        }
    }
}

/// The depth and the logarithm of a power of two are its exponent.
pub proof fn law_power_exponent(e: nat)
    ensures
        is_power_of_two(pow2(e)),
        depth(pow2(e)) == e,
        ceil_log2(pow2(e)) == e,
    decreases e,
{
    if e == 0 {
        lemma_pow2_zero();
    } else {
        let f = (e - 1) as nat;
        law_power_exponent(f);
        lemma_pow2_unfold(e);
        lemma_pow2_pos(f);
        assert(pow2(e) == 2 * pow2(f));
        assert(pow2(e) / 2 == pow2(f));
        assert((pow2(e) + 1) / 2 == pow2(f));
    }
}

/// What counts as a power of two is one.
pub proof fn law_power_of_two(n: nat)
    ensures
        is_power_of_two(n) <==> exists|e: nat| n == #[trigger] pow2(e),
    decreases n,
{
    if is_power_of_two(n) {
        if n == 1 {
            lemma_pow2_zero();
            assert(n == pow2(0));
        } else {
            law_power_of_two(n / 2);
            let e = choose|e: nat| n / 2 == #[trigger] pow2(e);
            lemma_pow2_unfold(e + 1);
            assert(n == pow2(e + 1));
        }
    }
    if exists|e: nat| n == #[trigger] pow2(e) {
        law_power_exponent(choose|e: nat| n == #[trigger] pow2(e));
    }
}

/// A batch of matrices of `2^e` rows, for whatever exponents, can be committed to.
pub proof fn law_committable(ts: Seq<Seq<Seq<u32>>>, exponents: Seq<nat>)
    requires
        ts.len() > 0,
        exponents.len() == ts.len(),
        forall|i: int| 0 <= i < ts.len() ==> #[trigger] ts[i].len() == pow2(exponents[i]),
    ensures
        is_committable(ts),
{
    assert forall|i: int| 0 <= i < ts.len() implies is_power_of_two(#[trigger] ts[i].len()) by {
        law_power_exponent(exponents[i]);
    }
}

/// Only such batches can be committed to.
pub proof fn law_committable_only(ts: Seq<Seq<Seq<u32>>>, i: int)
    requires
        is_committable(ts),
    ensures
        ts.len() > 0,
        0 <= i < ts.len() ==> exists|e: nat| ts[i].len() == #[trigger] pow2(e),
{
    if 0 <= i < ts.len() {
        assert(is_power_of_two(ts[i].len()));
        law_power_of_two(ts[i].len());
    }
}

/// The tallest height is the one that is among the heights and that none exceeds, or zero
/// where there are none.
pub proof fn law_tallest(hs: Seq<nat>, t: nat)
    ensures
        tallest(hs) == t <==> {
            &&& forall|i: int| 0 <= i < hs.len() ==> #[trigger] hs[i] <= t
            &&& if hs.len() == 0 {
                t == 0
            } else {
                hs.contains(t)
            }
        },
{
    lemma_tallest(hs);
    if hs.len() > 0 && hs.contains(t) {
        let i = choose|i: int| 0 <= i < hs.len() && hs[i] == t;
        assert(hs[i] <= tallest(hs));
        let j = choose|j: int| 0 <= j < hs.len() && hs[j] == tallest(hs);
        if forall|i: int| 0 <= i < hs.len() ==> #[trigger] hs[i] <= t {
            assert(hs[j] <= t);
        }
    }
}

/// The tallest of the matrices.
pub proof fn lemma_tallest_table(ts: Seq<Seq<Seq<u32>>>, top: nat)
    requires
        forall|i: int| 0 <= i < ts.len() ==> #[trigger] ts[i].len() <= top,
        exists|i: int| 0 <= i < ts.len() && #[trigger] ts[i].len() == top,
    ensures
        tallest(heights(ts)) == top,
{
    let hs = heights(ts);
    let i = choose|i: int| 0 <= i < ts.len() && #[trigger] ts[i].len() == top;
    assert(hs[i] == top);
    assert forall|i: int| 0 <= i < hs.len() implies #[trigger] hs[i] <= top by {
        assert(ts[i].len() <= top);
    }
    law_tallest(hs, top);
}

/// The longest length is the one that some row has and none exceeds, or zero where there
/// are no rows.
pub proof fn law_longest(rows: Seq<Seq<u32>>, w: nat)
    ensures
        longest(rows) == w <==> {
            &&& forall|i: int| 0 <= i < rows.len() ==> #[trigger] rows[i].len() <= w
            &&& if rows.len() == 0 {
                w == 0
            } else {
                exists|i: int| 0 <= i < rows.len() && #[trigger] rows[i].len() == w
            }
        },
    decreases rows.len(),
{
    if rows.len() > 0 {
        let front = rows.drop_last();
        let n = rows.len() - 1;
        law_longest(front, longest(front));
        assert forall|i: int| 0 <= i < rows.len() implies #[trigger] rows[i].len()
            <= longest(rows) by {
            if i < n {
                assert(front[i].len() <= longest(front));
            }
        }
        assert(exists|i: int| 0 <= i < rows.len() && #[trigger] rows[i].len() == longest(rows)) by {
            if front.len() == 0 || rows.last().len() > longest(front) {
                assert(rows[n].len() == longest(rows));
            } else {
                let i = choose|i: int|
                    0 <= i < front.len() && #[trigger] front[i].len() == longest(front);
                assert(rows[i].len() == longest(rows));
            }
        }
        let j = choose|j: int| 0 <= j < rows.len() && #[trigger] rows[j].len() == longest(rows);
        assert(rows[j].len() == longest(rows));
    }
}

/// Joining concatenates the parts that belong to the height, from the first to the last.
pub proof fn law_joined_is_concatenation(parts: Seq<Seq<u32>>, hs: Seq<nat>, h: nat)
    ensures
        joined(parts, hs, h) == Seq::new(
            parts.len(),
            |i: int| if hs[i] == h {
                parts[i]
            } else {
                Seq::empty()
            },
        ).flatten(),
    decreases parts.len(),
{
    let picked = Seq::new(
        parts.len(),
        |i: int| if hs[i] == h {
            parts[i]
        } else {
            Seq::<u32>::empty()
        },
    );
    picked.lemma_flatten_and_flatten_alt_are_equivalent();
    if parts.len() > 0 {
        let front = parts.drop_last();
        law_joined_is_concatenation(front, hs, h);
        let fewer = Seq::new(
            front.len(),
            |i: int| if hs[i] == h {
                front[i]
            } else {
                Seq::<u32>::empty()
            },
        );
        fewer.lemma_flatten_and_flatten_alt_are_equivalent();
        assert(picked.drop_last() =~= fewer);
        assert(joined(parts, hs, h) =~= picked.flatten_alt());
    }
}

/// Row `r` of level `h` is the concatenation of row `r` of each matrix of height `h`.
pub proof fn law_level_row(ts: Seq<Seq<Seq<u32>>>, h: nat, r: int)
    requires
        0 <= r < h,
    ensures
        level_rows(ts, h).len() == h,
        level_rows(ts, h)[r] == Seq::new(
            ts.len(),
            |i: int| if ts[i].len() == h {
                ts[i][r]
            } else {
                Seq::empty()
            },
        ).flatten(),
{
    law_joined_is_concatenation(rows_at(ts, r), heights(ts), h);
    assert(Seq::new(
        ts.len(),
        |i: int| if ts[i].len() == h {
            ts[i][r]
        } else {
            Seq::<u32>::empty()
        },
    ) =~= Seq::new(
        rows_at(ts, r).len(),
        |i: int| if heights(ts)[i] == h {
            rows_at(ts, r)[i]
        } else {
            Seq::<u32>::empty()
        },
    ));
}

/// A row takes as few steps as cover it with eight limbs each.
pub proof fn law_steps_cover(len: nat)
    ensures
        len <= 8 * steps(len) < len + 8,
{
}

/// The digest read off a state is its first half, reduced limb by limb.
pub proof fn law_squeeze_is_first_half(state: Seq<u32>)
    ensures
        squeeze(state) == Seq::new(8, |i: int| state[i] % 2013265921),
{
    assert(squeeze(state) =~= Seq::new(8, |i: int| state[i] % 2013265921));
}

/// Two digests fill the two halves of a state, left before right; their digest is the
/// first half of the permuted state.
pub proof fn law_compress_truncates(
    p: spec_fn(Seq<u32>) -> Seq<u32>,
    left: Seq<u32>,
    right: Seq<u32>,
    i: int,
)
    requires
        0 <= i < 8,
    ensures
        compress(p, left, right).len() == 8,
        compress(p, left, right)[i] == p(left + right)[i] % 2013265921,
{
}

/// The states of the sponge over a row, from sixteen zeros on: each chunk of eight limbs,
/// the last one perhaps shorter, is written over the front of the state, which is then
/// permuted. Any such sequence of states ends in the digest of the row.
pub proof fn law_sponge_run(
    p: spec_fn(Seq<u32>) -> Seq<u32>,
    row: Seq<u32>,
    t: Seq<Seq<u32>>,
)
    requires
        t.len() == (row.len() + 7) / 8 + 1,
        t[0] == Seq::new(16, |i: int| 0u32),
        forall|k: int| 0 <= k < t.len() ==> (#[trigger] t[k]).len() == 16,
        forall|k: int|
            #![trigger t[k]]
            1 <= k < t.len() ==> t[k] == p(
                if 8 * k <= row.len() {
                    row.subrange(8 * k - 8, 8 * k) + t[k - 1].subrange(8, 16)
                } else {
                    row.subrange(8 * k - 8, row.len() as int) + t[k - 1].subrange(
                        row.len() - (8 * k - 8),
                        16,
                    )
                },
            ),
    ensures
        forall|k: int| 0 <= k < t.len() ==> #[trigger] t[k] == sponge_state(p, row, k as nat),
        forall|k: nat| k >= t.len() ==> #[trigger] sponge_state(p, row, k) == t.last(),
        sponge_hash(p, row) == Seq::new(8, |i: int| t.last()[i] % 2013265921),
{
    assert forall|k: int| 0 <= k < t.len() implies #[trigger] t[k] == sponge_state(
        p,
        row,
        k as nat,
    ) by {
        lemma_sponge_run(p, row, t, k as nat);
    }
    assert forall|k: nat| k >= t.len() implies #[trigger] sponge_state(p, row, k) == t.last() by {
        lemma_sponge_settles(p, row, k);
    }
    assert(sponge_hash(p, row) =~= Seq::new(8, |i: int| t.last()[i] % 2013265921));
}

/// One state of `law_sponge_run`.
proof fn lemma_sponge_run(
    p: spec_fn(Seq<u32>) -> Seq<u32>,
    row: Seq<u32>,
    t: Seq<Seq<u32>>,
    k: nat,
)
    requires
        k < t.len(),
        t.len() == (row.len() + 7) / 8 + 1,
        t[0] == Seq::new(16, |i: int| 0u32),
        forall|k: int| 0 <= k < t.len() ==> (#[trigger] t[k]).len() == 16,
        forall|k: int|
            #![trigger t[k]]
            1 <= k < t.len() ==> t[k] == p(
                if 8 * k <= row.len() {
                    row.subrange(8 * k - 8, 8 * k) + t[k - 1].subrange(8, 16)
                } else {
                    row.subrange(8 * k - 8, row.len() as int) + t[k - 1].subrange(
                        row.len() - (8 * k - 8),
                        16,
                    )
                },
            ),
    ensures
        t[k as int] == sponge_state(p, row, k),
    decreases k,
{
    if k > 0 {
        let j = k - 1;
        lemma_sponge_run(p, row, t, j as nat);
        assert(t[j].len() == 16);
        assert(8 * j < row.len());
        let input = if 8 * k <= row.len() {
            row.subrange(8 * k - 8, 8 * k as int) + t[j].subrange(8, 16)
        } else {
            row.subrange(8 * k - 8, row.len() as int) + t[j].subrange(
                row.len() - (8 * k - 8),
                16,
            )
        };
        assert(input =~= overwrite(t[j], chunk(row, j)));
        assert(t[k as int] == p(input));
    }
}

/// Absorbing one more chunk writes it over the front of the last state and permutes. The
/// row before it fills its chunks, so no limb is left out.
pub proof fn law_sponge_absorbs(
    p: spec_fn(Seq<u32>) -> Seq<u32>,
    row: Seq<u32>,
    last: Seq<u32>,
)
    requires
        row.len() % 8 == 0,
        1 <= last.len() <= 8,
        sponge_state(p, row, row.len() / 8).len() == 16,
    ensures
        ({
            let before = sponge_state(p, row, row.len() / 8);
            let after = p(last + before.subrange(last.len() as int, 16));
            sponge_hash(p, row + last) == Seq::new(8, |i: int| after[i] % 2013265921)
        }),
{
    let whole = row + last;
    let n = row.len() / 8;
    let before = sponge_state(p, row, n);
    lemma_sponge_prefix(p, row, last, n);
    assert(steps(whole.len()) == n + 1);
    assert(chunk(whole, n as int) =~= last);
    assert(overwrite(before, last) =~= last + before.subrange(last.len() as int, 16));
    let after = p(last + before.subrange(last.len() as int, 16));
    assert(sponge_hash(p, whole) =~= Seq::new(8, |i: int| after[i] % 2013265921));
}

/// What follows a row does not change the states over its full chunks.
proof fn lemma_sponge_prefix(
    p: spec_fn(Seq<u32>) -> Seq<u32>,
    row: Seq<u32>,
    rest: Seq<u32>,
    k: nat,
)
    requires
        8 * k <= row.len(),
    ensures
        sponge_state(p, row + rest, k) == sponge_state(p, row, k),
    decreases k,
{
    if k > 0 {
        lemma_sponge_prefix(p, row, rest, (k - 1) as nat);
        assert(chunk(row + rest, k - 1) =~= chunk(row, k - 1));
    }
}

/// Each row is hashed, each pair compressed and each two digests joined, at their place.
pub proof fn law_batched_entries(
    p: spec_fn(Seq<u32>) -> Seq<u32>,
    a: Seq<Seq<u32>>,
    b: Seq<Seq<u32>>,
    i: int,
)
    requires
        0 <= i < a.len(),
    ensures
        hashed(p, a).len() == a.len(),
        hashed(p, a)[i] == sponge_hash(p, a[i]),
        halved(p, a).len() == a.len() / 2,
        2 * i + 1 < a.len() ==> halved(p, a)[i] == Seq::new(
            8,
            |j: int| p(a[2 * i] + a[2 * i + 1])[j] % 2013265921,
        ),
        paired(p, a, b).len() == a.len(),
        paired(p, a, b)[i] == Seq::new(8, |j: int| p(a[i] + b[i])[j] % 2013265921),
{
    if 2 * i + 1 < a.len() {
        assert(halved(p, a)[i] =~= Seq::new(
            8,
            |j: int| p(a[2 * i] + a[2 * i + 1])[j] % 2013265921,
        ));
    }
    assert(paired(p, a, b)[i] =~= Seq::new(8, |j: int| p(a[i] + b[i])[j] % 2013265921));
}

/// The named permutation, applied as it stands.
pub proof fn law_poseidon2_applies(s: Seq<u32>)
    ensures
        poseidon2()(s) == poseidon2_bb16(s),
{
}

/// A batch is permuted where each run of sixteen limbs is, at its place.
pub proof fn law_permuted_in_place(
    p: spec_fn(Seq<u32>) -> Seq<u32>,
    flat: Seq<u32>,
    out: Seq<u32>,
)
    ensures
        forall|k: int| #[trigger] state_at(flat, k) == flat.subrange(16 * k, 16 * k + 16),
        is_permuted(p, flat, out) <==> {
            &&& out.len() == flat.len()
            &&& forall|k: int|
                0 <= k && 16 * k + 16 <= flat.len() ==> #[trigger] out.subrange(
                    16 * k,
                    16 * k + 16,
                ) == p(flat.subrange(16 * k, 16 * k + 16))
        },
{
    if is_permuted(p, flat, out) {
        assert forall|k: int| 0 <= k && 16 * k + 16 <= flat.len() implies #[trigger] out.subrange(
            16 * k,
            16 * k + 16,
        ) == p(flat.subrange(16 * k, 16 * k + 16)) by {
            assert(state_at(out, k) == p(state_at(flat, k)));
        }
    }
    if out.len() == flat.len() && forall|k: int|
        0 <= k && 16 * k + 16 <= flat.len() ==> #[trigger] out.subrange(16 * k, 16 * k + 16)
            == p(flat.subrange(16 * k, 16 * k + 16)) {
        assert forall|k: int| 0 <= k && 16 * k + 16 <= flat.len() implies #[trigger] state_at(
            out,
            k,
        ) == p(state_at(flat, k)) by {
            assert(out.subrange(16 * k, 16 * k + 16) == p(flat.subrange(16 * k, 16 * k + 16)));
        }
    }
}

/// A batch that halves a layer holds its digests one after the other, without the odd one
/// at the end. One that joins two layers holds their digests in turn.
pub proof fn law_compressing_batches(
    a: Seq<Seq<u32>>,
    b: Seq<Seq<u32>>,
    flat: Seq<u32>,
    i: int,
)
    requires
        forall|j: int| 0 <= j < a.len() ==> (#[trigger] a[j]).len() == 8,
        forall|j: int| 0 <= j < b.len() ==> (#[trigger] b[j]).len() == 8,
        a.len() == b.len(),
    ensures
        is_halving_batch(a, flat) ==> flat.len() == 16 * (a.len() / 2),
        is_halving_batch(a, flat) && 0 <= i && 8 * i + 8 <= flat.len() ==> flat.subrange(
            8 * i,
            8 * i + 8,
        ) == a[i],
        is_pairing_batch(a, b, flat) ==> flat.len() == 16 * a.len(),
        is_pairing_batch(a, b, flat) && 0 <= i < a.len() ==> {
            &&& flat.subrange(16 * i, 16 * i + 8) == a[i]
            &&& flat.subrange(16 * i + 8, 16 * i + 16) == b[i]
        },
{
    if is_halving_batch(a, flat) && 0 <= i && 8 * i + 8 <= flat.len() {
        let k = i / 2;
        let state = state_at(flat, k);
        assert(state == a[2 * k] + a[2 * k + 1]);
        assert(a[2 * k].len() == 8 && a[2 * k + 1].len() == 8);
        let o = 8 * (i % 2);
        assert(flat.subrange(8 * i, 8 * i + 8) =~= state.subrange(o, o + 8));
        assert(state.subrange(o, o + 8) =~= a[i]);
    }
    if is_pairing_batch(a, b, flat) && 0 <= i < a.len() {
        let state = state_at(flat, i);
        assert(state == a[i] + b[i]);
        assert(a[i].len() == 8 && b[i].len() == 8);
        assert(flat.subrange(16 * i, 16 * i + 8) =~= state.subrange(0, 8));
        assert(flat.subrange(16 * i + 8, 16 * i + 16) =~= state.subrange(8, 16));
        assert(state.subrange(0, 8) =~= a[i]);
        assert(state.subrange(8, 16) =~= b[i]);
    }
}

/// The batch of step `k` holds one state for each row: limbs `8 * k` on, at most eight of
/// them, before the rest of the row's state, or that state itself once the row is used up.
pub proof fn law_sponge_batch_entries(
    p: spec_fn(Seq<u32>) -> Seq<u32>,
    rows: Seq<Seq<u32>>,
    k: nat,
    flat: Seq<u32>,
    i: int,
)
    requires
        is_sponge_batch(p, rows, k, flat),
        0 <= i < rows.len(),
        sponge_state(p, rows[i], k).len() == 16,
    ensures
        flat.len() == 16 * rows.len(),
        flat.subrange(16 * i, 16 * i + 16) == ({
            let row = rows[i];
            let state = sponge_state(p, row, k);
            if 8 * k + 8 <= row.len() {
                row.subrange(8 * (k as int), 8 * (k as int) + 8) + state.subrange(8, 16)
            } else if 8 * k < row.len() {
                row.subrange(8 * (k as int), row.len() as int) + state.subrange(
                    row.len() - 8 * k,
                    16,
                )
            } else {
                state
            }
        }),
{
    let row = rows[i];
    let state = sponge_state(p, row, k);
    assert(state_at(flat, i) == sponge_input(p, row, k));
    if 8 * k + 8 <= row.len() {
        assert(overwrite(state, chunk(row, k as int)) =~= row.subrange(8 * (k as int), 8 * (k as int) + 8)
            + state.subrange(8, 16));
    } else if 8 * k < row.len() {
        assert(overwrite(state, chunk(row, k as int)) =~= row.subrange(
            8 * (k as int),
            row.len() as int,
        ) + state.subrange(row.len() - 8 * k, 16));
    }
}

/// Limbs are read off element by element, and reduced and compared limb by limb.
pub proof fn law_limbs(s: Seq<BabyBear>, c: Seq<u32>)
    ensures
        limbs(s) == s.map_values(|x: BabyBear| x@),
        reduced(c) == c.map_values(|x: u32| x % 2013265921),
        is_canonical(c) <==> forall|i: int| 0 <= i < c.len() ==> #[trigger] c[i] < 2013265921,
{
    assert(limbs(s) =~= s.map_values(|x: BabyBear| x@));
    assert(reduced(c) =~= c.map_values(|x: u32| x % 2013265921));
}

/// Matrices, layers and dimensions are read row by row, digest by digest, in order.
pub proof fn law_views(
    ms: Seq<Matrix>,
    rows: Seq<Vec<BabyBear>>,
    layer: Seq<Digest>,
    layers: Seq<Vec<Digest>>,
    dims: Seq<Dimensions>,
)
    ensures
        row_limbs(rows) == rows.map_values(|v: Vec<BabyBear>| v@.map_values(|x: BabyBear| x@)),
        digests(layer) == layer.map_values(|d: Digest| d@.map_values(|x: BabyBear| x@)),
        layer_limbs(layers) == layers.map_values(
            |v: Vec<Digest>| v@.map_values(|d: Digest| d@.map_values(|x: BabyBear| x@)),
        ),
        tables(ms) == ms.map_values(
            |m: Matrix| m.rows@.map_values(|v: Vec<BabyBear>| v@.map_values(|x: BabyBear| x@)),
        ),
        forall|m: Matrix| #[trigger]
            m@ == m.rows@.map_values(|v: Vec<BabyBear>| v@.map_values(|x: BabyBear| x@)),
        heights(tables(ms)) == ms.map_values(|m: Matrix| m.rows@.len()),
        dim_heights(dims) == dims.map_values(|d: Dimensions| d.height as nat),
{
    assert forall|v: Vec<BabyBear>| #[trigger] limbs(v@) == v@.map_values(|x: BabyBear| x@) by {
        law_limbs(v@, Seq::empty());
    }
    assert forall|d: Digest| #[trigger] limbs(d@) == d@.map_values(|x: BabyBear| x@) by {
        law_limbs(d@, Seq::empty());
    }
    assert(row_limbs(rows) =~= rows.map_values(
        |v: Vec<BabyBear>| v@.map_values(|x: BabyBear| x@),
    ));
    assert(digests(layer) =~= layer.map_values(|d: Digest| d@.map_values(|x: BabyBear| x@)));
    assert forall|v: Vec<Digest>| #[trigger] digests(v@) == v@.map_values(
        |d: Digest| d@.map_values(|x: BabyBear| x@),
    ) by {
        assert(digests(v@) =~= v@.map_values(|d: Digest| d@.map_values(|x: BabyBear| x@)));
    }
    assert(layer_limbs(layers) =~= layers.map_values(
        |v: Vec<Digest>| v@.map_values(|d: Digest| d@.map_values(|x: BabyBear| x@)),
    ));
    assert forall|m: Matrix| #[trigger] m@ == m.rows@.map_values(
        |v: Vec<BabyBear>| v@.map_values(|x: BabyBear| x@),
    ) by {
        assert(m@ =~= m.rows@.map_values(|v: Vec<BabyBear>| v@.map_values(|x: BabyBear| x@)));
    }
    assert(tables(ms) =~= ms.map_values(
        |m: Matrix| m.rows@.map_values(|v: Vec<BabyBear>| v@.map_values(|x: BabyBear| x@)),
    ));
    assert(heights(tables(ms)) =~= ms.map_values(|m: Matrix| m.rows@.len()));
    assert(dim_heights(dims) =~= dims.map_values(|d: Dimensions| d.height as nat));
}

/// A record goes on from another where it holds that one first, and then as many batches
/// more.
pub proof fn law_record_goes_on(before: Seq<Seq<u32>>, after: Seq<Seq<u32>>, n: nat)
    ensures
        adds(before, after, n) <==> exists|more: Seq<Seq<u32>>|
            more.len() == n && after == #[trigger] (before + more),
{
    if adds(before, after, n) {
        let more = after.skip(before.len() as int);
        assert(after =~= before + more) by {
            assert forall|i: int| 0 <= i < before.len() implies after[i] == before[i] by {
                assert(after.take(before.len() as int)[i] == before[i]);
            }
        }
        assert(more.len() == n);
    }
}

/// Decimal digits: a number below ten is one digit, and a further digit at the end
/// multiplies by ten and adds it.
pub proof fn law_decimal(n: nat, digit: nat)
    requires
        digit < 10,
    ensures
        decimal(digit).len() == 1,
        decimal(digit)[0] as int == '0' as int + digit,
        n > 0 ==> decimal(10 * n + digit) == decimal(n) + decimal(digit),
{
    if n > 0 {
        assert((10 * n + digit) / 10 == n);
        assert((10 * n + digit) % 10 == digit);
        assert(decimal(10 * n + digit) =~= decimal(n) + decimal(digit));
    }
}

/// The texts of the errors.
pub proof fn law_error_texts(expected: usize, got: usize)
    ensures
        error_text(GpuMmcsError::WrongBatchSize) == "wrong batch size"@,
        error_text(GpuMmcsError::WrongWidth) == "wrong width"@,
        error_text(GpuMmcsError::RootMismatch) == "root mismatch"@,
        error_text(
            GpuMmcsError::WrongHeight { expected_proof_len: expected, num_siblings: got },
        ) == "wrong height (expected "@ + decimal(expected as nat) + ", got "@ + decimal(
            got as nat,
        ) + ")"@,
{
}

} // verus!
