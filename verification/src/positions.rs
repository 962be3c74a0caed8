//! Where things stand in a tree: which rows a leaf hashes, which nodes a node compresses,
//! which layer is published, which rows and siblings are opened, and what a verifier
//! recomputes from them.
//!
//! The laws name layers and rows by division and powers of two, and rows of one height by
//! concatenation.
#[allow(unused_imports)]
use crate::batch::{halved, hashed, paired};
#[allow(unused_imports)]
use crate::gpu_mmcs::cap_layer;
#[allow(unused_imports)]
use crate::hash::{compress, sponge_hash};
#[allow(unused_imports)]
use crate::path::{
    heights_fit, is_layer_len, opened_rows, opening_matches, path_digest, path_len, proof_levels,
    sibling_path,
};
#[allow(unused_imports)]
use crate::pointwise::{
    law_halvings_divide, law_joined_is_concatenation, law_level_row, law_power_exponent,
    law_tallest, lemma_ceil_log_unique, lemma_tallest_table,
};
#[allow(unused_imports)]
use crate::tree::{
    halvings, heights, joined, lemma_layer_len, level_rows, tallest, tree_layer, tree_layers,
    tree_root,
};
#[allow(unused_imports)]
use vstd::arithmetic::power2::{
    lemma_pow2_adds, lemma_pow2_pos, lemma_pow2_strictly_increases, lemma_pow2_unfold, pow2,
};
use vstd::prelude::*;

verus! {

/// A larger power of two, divided by a smaller one.
proof fn lemma_pow2_quotient(d: nat, l: nat)
    requires
        l <= d,
    ensures
        pow2(d) / pow2(l) == pow2((d - l) as nat),
        pow2(l) > 0,
{
    let e = (d - l) as nat;
    lemma_pow2_adds(l, e);
    lemma_pow2_pos(l);
    vstd::arithmetic::div_mod::lemma_div_multiples_vanish(pow2(e) as int, pow2(l) as int);
}

/// Leaf `r` is the digest of row `r` of the tallest matrices, joined in their order.
pub proof fn law_leaf_is_row_digest(
    p: spec_fn(Seq<u32>) -> Seq<u32>,
    ts: Seq<Seq<Seq<u32>>>,
    top: nat,
    r: int,
)
    requires
        forall|i: int| 0 <= i < ts.len() ==> #[trigger] ts[i].len() <= top,
        exists|i: int| 0 <= i < ts.len() && #[trigger] ts[i].len() == top,
        0 <= r < top,
    ensures
        tree_layers(p, ts)[0].len() == top,
        tree_layers(p, ts)[0][r] == sponge_hash(
            p,
            Seq::new(
                ts.len(),
                |i: int| if ts[i].len() == top {
                    ts[i][r]
                } else {
                    Seq::empty()
                },
            ).flatten(),
        ),
{
    lemma_tallest_table(ts, top);
    law_level_row(ts, top, r);
}

/// Leaf `r` over a single matrix is the digest of its row `r`.
pub proof fn law_single_leaf(
    p: spec_fn(Seq<u32>) -> Seq<u32>,
    m: Seq<Seq<u32>>,
    r: int,
)
    requires
        0 <= r < m.len(),
    ensures
        tree_layers(p, seq![m])[0].len() == m.len(),
        tree_layers(p, seq![m])[0][r] == sponge_hash(p, m[r]),
{
    let ts = seq![m];
    assert(ts[0].len() == m.len());
    law_leaf_is_row_digest(p, ts, m.len(), r);
    let parts = Seq::new(
        ts.len(),
        |i: int| if ts[i].len() == m.len() {
            ts[i][r]
        } else {
            Seq::<u32>::empty()
        },
    );
    parts.lemma_flatten_one_element();
}

/// Over `2^d` leaves there are `d + 1` layers, and layer `l` has `2^(d - l)` nodes.
pub proof fn law_number_of_nodes(
    p: spec_fn(Seq<u32>) -> Seq<u32>,
    ts: Seq<Seq<Seq<u32>>>,
    d: nat,
    l: nat,
)
    requires
        forall|i: int| 0 <= i < ts.len() ==> #[trigger] ts[i].len() <= pow2(d),
        exists|i: int| 0 <= i < ts.len() && #[trigger] ts[i].len() == pow2(d),
        l <= d,
    ensures
        tree_layers(p, ts).len() == d + 1,
        tree_layers(p, ts)[l as int].len() == pow2((d - l) as nat),
{
    lemma_tallest_table(ts, pow2(d));
    law_power_exponent(d);
    law_halvings_divide(pow2(d), l);
    lemma_pow2_quotient(d, l);
    lemma_layer_len(p, ts, l);
}

/// Node `i` above the leaves compresses nodes `2 * i` and `2 * i + 1` of the layer below, left
/// before right, whatever `i` is. Where matrices have as many rows as the layer has
/// nodes, that digest is in turn compressed with the digest of their row `i`.
pub proof fn law_node_compresses_its_pair(
    p: spec_fn(Seq<u32>) -> Seq<u32>,
    ts: Seq<Seq<Seq<u32>>>,
    d: nat,
    l: nat,
    i: int,
)
    requires
        forall|i: int| 0 <= i < ts.len() ==> #[trigger] ts[i].len() <= pow2(d),
        exists|i: int| 0 <= i < ts.len() && #[trigger] ts[i].len() == pow2(d),
        1 <= l <= d,
        0 <= i < pow2((d - l) as nat),
    ensures
        ({
            let below = tree_layers(p, ts)[l - 1];
            let len = pow2((d - l) as nat);
            let pair = Seq::new(8, |j: int| p(below[2 * i] + below[2 * i + 1])[j] % 2013265921);
            let row = Seq::new(
                ts.len(),
                |t: int| if ts[t].len() == len {
                    ts[t][i]
                } else {
                    Seq::empty()
                },
            ).flatten();
            tree_layers(p, ts)[l as int][i] == if exists|t: int|
                0 <= t < ts.len() && #[trigger] ts[t].len() == len {
                Seq::new(8, |j: int| p(pair + sponge_hash(p, row))[j] % 2013265921)
            } else {
                pair
            }
        }),
{
    let top = pow2(d);
    let len = pow2((d - l) as nat);
    lemma_tallest_table(ts, top);
    law_power_exponent(d);
    law_halvings_divide(top, l);
    lemma_pow2_quotient(d, l);
    lemma_layer_len(p, ts, l);
    lemma_layer_len(p, ts, (l - 1) as nat);
    law_level_row(ts, len, i);
    let below = tree_layer(p, ts, (l - 1) as nat);
    let half = halved(p, below);
    assert(half.len() == len);
    let pair = Seq::new(8, |j: int| p(below[2 * i] + below[2 * i + 1])[j] % 2013265921);
    assert(half[i] =~= pair);
    let hs = heights(ts);
    if hs.contains(len) {
        let t = choose|t: int| 0 <= t < hs.len() && hs[t] == len;
        assert(ts[t].len() == len);
        let row = level_rows(ts, len)[i];
        assert(compress(p, pair, sponge_hash(p, row)) =~= Seq::new(
            8,
            |j: int| p(pair + sponge_hash(p, row))[j] % 2013265921,
        ));
    } else {
        assert forall|t: int| 0 <= t < ts.len() implies #[trigger] ts[t].len() != len by {
            assert(hs[t] != len);
        }
    }
}

/// The root is the one node of the last layer.
pub proof fn law_root_is_last_node(
    p: spec_fn(Seq<u32>) -> Seq<u32>,
    ts: Seq<Seq<Seq<u32>>>,
)
    ensures
        tree_layers(p, ts).len() > 0,
        tree_root(p, ts) == tree_layers(p, ts).last()[0],
{
}

/// The first and the last half of a matrix.
proof fn lemma_half_rows(
    ts: Seq<Seq<Seq<u32>>>,
    firsts: Seq<Seq<Seq<u32>>>,
    lasts: Seq<Seq<Seq<u32>>>,
    h: nat,
)
    requires
        firsts.len() == ts.len(),
        lasts.len() == ts.len(),
        forall|i: int|
            #![trigger ts[i]]
            0 <= i < ts.len() ==> {
                &&& ts[i] == firsts[i] + lasts[i]
                &&& firsts[i].len() == lasts[i].len()
            },
    ensures
        level_rows(ts, 2 * h) == level_rows(firsts, h) + level_rows(lasts, h),
        heights(ts).contains(2 * h) <==> heights(firsts).contains(h),
        heights(ts).contains(2 * h) <==> heights(lasts).contains(h),
{
    let x = level_rows(ts, 2 * h);
    let y = level_rows(firsts, h) + level_rows(lasts, h);
    assert forall|r: int| 0 <= r < 2 * h implies x[r] == y[r] by {
        let whole = Seq::new(
            ts.len(),
            |i: int| if ts[i].len() == 2 * h {
                ts[i][r]
            } else {
                Seq::<u32>::empty()
            },
        );
        law_level_row(ts, 2 * h, r);
        if r < h {
            law_level_row(firsts, h, r);
            assert(whole =~= Seq::new(
                firsts.len(),
                |i: int| if firsts[i].len() == h {
                    firsts[i][r]
                } else {
                    Seq::<u32>::empty()
                },
            )) by {
                assert forall|i: int| 0 <= i < ts.len() implies #[trigger] ts[i]
                    == firsts[i] + lasts[i] by {}
            }
        } else {
            law_level_row(lasts, h, r - h);
            assert(whole =~= Seq::new(
                lasts.len(),
                |i: int| if lasts[i].len() == h {
                    lasts[i][r - h]
                } else {
                    Seq::<u32>::empty()
                },
            )) by {
                assert forall|i: int| 0 <= i < ts.len() implies #[trigger] ts[i]
                    == firsts[i] + lasts[i] by {}
            }
        }
    }
    assert(x =~= y);
    if heights(ts).contains(2 * h) {
        let i = choose|i: int| 0 <= i < ts.len() && heights(ts)[i] == 2 * h;
        assert(ts[i] == firsts[i] + lasts[i]);
        assert(heights(firsts)[i] == h);
        assert(heights(lasts)[i] == h);
    }
    if heights(firsts).contains(h) {
        let i = choose|i: int| 0 <= i < firsts.len() && heights(firsts)[i] == h;
        assert(ts[i] == firsts[i] + lasts[i]);
        assert(heights(ts)[i] == 2 * h);
    }
    if heights(lasts).contains(h) {
        let i = choose|i: int| 0 <= i < lasts.len() && heights(lasts)[i] == h;
        assert(ts[i] == firsts[i] + lasts[i]);
        assert(heights(ts)[i] == 2 * h);
    }
}

/// Below the root, each layer is that of the first halves followed by that of the last.
proof fn lemma_half_layers(
    p: spec_fn(Seq<u32>) -> Seq<u32>,
    ts: Seq<Seq<Seq<u32>>>,
    firsts: Seq<Seq<Seq<u32>>>,
    lasts: Seq<Seq<Seq<u32>>>,
    d: nat,
    l: nat,
)
    requires
        firsts.len() == ts.len(),
        lasts.len() == ts.len(),
        forall|i: int|
            #![trigger ts[i]]
            0 <= i < ts.len() ==> {
                &&& ts[i] == firsts[i] + lasts[i]
                &&& firsts[i].len() == lasts[i].len()
            },
        tallest(heights(ts)) == pow2(d + 1),
        tallest(heights(firsts)) == pow2(d),
        tallest(heights(lasts)) == pow2(d),
        l <= d,
    ensures
        tree_layer(p, ts, l) == tree_layer(p, firsts, l) + tree_layer(p, lasts, l),
        tree_layer(p, firsts, l).len() == pow2((d - l) as nat),
        tree_layer(p, lasts, l).len() == pow2((d - l) as nat),
    decreases l,
{
    let len = pow2((d - l) as nat);
    lemma_pow2_unfold(d + 1);
    lemma_layer_len(p, firsts, l);
    lemma_layer_len(p, lasts, l);
    law_halvings_divide(pow2(d), l);
    lemma_pow2_quotient(d, l);
    lemma_half_rows(ts, firsts, lasts, len);
    let fl = hashed(p, level_rows(firsts, len));
    let ll = hashed(p, level_rows(lasts, len));
    assert(hashed(p, level_rows(ts, 2 * len)) =~= fl + ll);
    if l == 0 {
        assert(tree_layer(p, ts, l) =~= tree_layer(p, firsts, l) + tree_layer(p, lasts, l));
    } else {
        let k = (l - 1) as nat;
        lemma_half_layers(p, ts, firsts, lasts, d, k);
        let f = tree_layer(p, firsts, k);
        let g = tree_layer(p, lasts, k);
        lemma_pow2_unfold((d - k) as nat);
        assert(f.len() == 2 * len && g.len() == 2 * len);
        let half = halved(p, f + g);
        assert forall|i: int| 0 <= i < half.len() implies half[i] == (halved(p, f) + halved(
            p,
            g,
        ))[i] by {
            if i < len {
                assert((f + g)[2 * i] == f[2 * i] && (f + g)[2 * i + 1] == f[2 * i + 1]);
            } else {
                assert((f + g)[2 * i] == g[2 * (i - len)]);
                assert((f + g)[2 * i + 1] == g[2 * (i - len) + 1]);
            }
        }
        assert(half =~= halved(p, f) + halved(p, g));
        assert(half.len() == 2 * len);
        if heights(ts).contains(2 * len) {
            assert(paired(p, half, fl + ll) =~= paired(p, halved(p, f), fl) + paired(
                p,
                halved(p, g),
                ll,
            ));
        }
    }
}

/// The tree over matrices of at least two rows is made of the trees over their first
/// halves and over their last halves: its root compresses the two roots, in this order.
pub proof fn law_root_of_halves(
    p: spec_fn(Seq<u32>) -> Seq<u32>,
    firsts: Seq<Seq<Seq<u32>>>,
    lasts: Seq<Seq<Seq<u32>>>,
    d: nat,
)
    requires
        firsts.len() == lasts.len(),
        forall|i: int|
            #![trigger firsts[i]]
            0 <= i < firsts.len() ==> {
                &&& firsts[i].len() == lasts[i].len()
                &&& 1 <= firsts[i].len() <= pow2(d)
            },
        exists|i: int| 0 <= i < firsts.len() && #[trigger] firsts[i].len() == pow2(d),
    ensures
        tree_root(p, Seq::new(firsts.len(), |i: int| firsts[i] + lasts[i])) == Seq::new(
            8,
            |j: int| p(tree_root(p, firsts) + tree_root(p, lasts))[j] % 2013265921,
        ),
{
    let ts = Seq::new(firsts.len(), |i: int| firsts[i] + lasts[i]);
    let t = choose|i: int| 0 <= i < firsts.len() && #[trigger] firsts[i].len() == pow2(d);
    lemma_pow2_unfold(d + 1);
    assert(ts[t].len() == pow2(d + 1));
    assert(lasts[t].len() == pow2(d));
    assert forall|i: int| 0 <= i < lasts.len() implies #[trigger] lasts[i].len() <= pow2(d) by {
        assert(firsts[i].len() <= pow2(d));
    }
    assert forall|i: int| 0 <= i < ts.len() implies #[trigger] ts[i].len() <= pow2(d + 1) by {
        assert(firsts[i].len() <= pow2(d));
    }
    lemma_tallest_table(ts, pow2(d + 1));
    lemma_tallest_table(firsts, pow2(d));
    lemma_tallest_table(lasts, pow2(d));
    law_power_exponent(d);
    law_power_exponent(d + 1);
    law_power_exponent(0);
    lemma_half_layers(p, ts, firsts, lasts, d, d);
    vstd::arithmetic::power2::lemma2_to64();
    let f = tree_layer(p, firsts, d);
    let g = tree_layer(p, lasts, d);
    let half = halved(p, f + g);
    assert(half.len() == 1);
    assert(!heights(ts).contains(1)) by {
        if heights(ts).contains(1) {
            let i = choose|i: int| 0 <= i < ts.len() && heights(ts)[i] == 1;
            assert(firsts[i].len() >= 1);
        }
    }
    assert((f + g)[0] == f[0] && (f + g)[1] == g[0]);
    assert(half[0] =~= Seq::new(8, |j: int| p(f[0] + g[0])[j] % 2013265921));
}

/// The root over a single matrix of `2 * n` rows compresses the root over its first `n`
/// rows and the root over its last `n` rows.
pub proof fn law_single_root_of_halves(
    p: spec_fn(Seq<u32>) -> Seq<u32>,
    first: Seq<Seq<u32>>,
    last: Seq<Seq<u32>>,
    d: nat,
)
    requires
        first.len() == pow2(d),
        last.len() == pow2(d),
    ensures
        tree_root(p, seq![first + last]) == Seq::new(
            8,
            |j: int| p(tree_root(p, seq![first]) + tree_root(p, seq![last]))[j] % 2013265921,
        ),
{
    let firsts = seq![first];
    let lasts = seq![last];
    lemma_pow2_pos(d);
    assert(firsts[0].len() == pow2(d));
    law_root_of_halves(p, firsts, lasts, d);
    assert(Seq::new(firsts.len(), |i: int| firsts[i] + lasts[i]) =~= seq![first + last]);
}

/// The published cap is a layer of the tree as it stands: that `c` layers below the root,
/// or the leaves where there are no more. Its entry `i` is node `i` of that layer.
pub proof fn law_cap_is_a_layer(
    p: spec_fn(Seq<u32>) -> Seq<u32>,
    ts: Seq<Seq<Seq<u32>>>,
    d: nat,
    c: nat,
)
    requires
        forall|i: int| 0 <= i < ts.len() ==> #[trigger] ts[i].len() <= pow2(d),
        exists|i: int| 0 <= i < ts.len() && #[trigger] ts[i].len() == pow2(d),
    ensures
        cap_layer(p, ts, c) == tree_layers(p, ts)[if c <= d {
            d - c
        } else {
            0
        }],
{
    lemma_tallest_table(ts, pow2(d));
    law_power_exponent(d);
}

/// As many layers lie below a cap of height `c` as the tree has layers less one, less `c`.
/// Over `top` rows that is the logarithm of `top`, rounded up, less `c`.
pub proof fn law_layers_below_cap(num_layers: nat, top: nat, a: nat, c: nat)
    requires
        top <= pow2(a),
        a > 0 ==> pow2((a - 1) as nat) < top,
    ensures
        proof_levels(num_layers, c) == if num_layers >= c + 1 {
            num_layers - 1 - c
        } else {
            0
        },
        path_len(top, c) == if a >= c {
            a - c
        } else {
            0
        },
{
    lemma_ceil_log_unique(top, a);
}

/// A matrix as tall as the tallest opens its row `index`; one with fewer rows opens the
/// row that stands above it, `index` divided by the quotient of the heights.
pub proof fn law_opened_row(ts: Seq<Seq<Seq<u32>>>, d: nat, e: nat, index: nat, i: int)
    requires
        forall|i: int| 0 <= i < ts.len() ==> #[trigger] ts[i].len() <= pow2(d),
        exists|i: int| 0 <= i < ts.len() && #[trigger] ts[i].len() == pow2(d),
        0 <= i < ts.len(),
        ts[i].len() == pow2(e),
    ensures
        opened_rows(ts, index).len() == ts.len(),
        opened_rows(ts, index)[i] == ts[i][(index / (pow2(d) / ts[i].len())) as int],
        e == d ==> opened_rows(ts, index)[i] == ts[i][index as int],
{
    lemma_tallest_table(ts, pow2(d));
    law_power_exponent(d);
    law_power_exponent(e);
    if e > d {
        lemma_pow2_strictly_increases(d, e);
    }
    lemma_pow2_quotient(d, e);
    law_halvings_divide(index, (d - e) as nat);
}

/// Whatever the heights, a matrix opens the row that is left of `index` when the low bits
/// that its rows do not need are dropped.
pub proof fn law_opened_row_drops_bits(
    ts: Seq<Seq<Seq<u32>>>,
    top: nat,
    a: nat,
    b: nat,
    index: nat,
    i: int,
)
    requires
        forall|i: int| 0 <= i < ts.len() ==> #[trigger] ts[i].len() <= top,
        exists|i: int| 0 <= i < ts.len() && #[trigger] ts[i].len() == top,
        top <= pow2(a),
        a > 0 ==> pow2((a - 1) as nat) < top,
        0 <= i < ts.len(),
        ts[i].len() <= pow2(b),
        b > 0 ==> pow2((b - 1) as nat) < ts[i].len(),
        b <= a,
    ensures
        opened_rows(ts, index)[i] == ts[i][(index / pow2((a - b) as nat)) as int],
{
    lemma_tallest_table(ts, top);
    lemma_ceil_log_unique(top, a);
    lemma_ceil_log_unique(ts[i].len(), b);
    law_halvings_divide(index, (a - b) as nat);
}

/// The sibling opened in layer `l` is the other node of the pair above `index`: the next
/// one where the node is even, the one before where it is odd.
pub proof fn law_opened_sibling(
    layers: Seq<Seq<Seq<u32>>>,
    index: nat,
    levels: nat,
    l: nat,
)
    requires
        l < levels,
    ensures
        sibling_path(layers, index, levels).len() == levels,
        sibling_path(layers, index, levels)[l as int] == ({
            let node = index / pow2(l);
            if node % 2 == 0 {
                layers[l as int][node as int + 1]
            } else {
                layers[l as int][node - 1]
            }
        }),
{
    law_halvings_divide(index, l);
}

/// One node of `law_verifier_walk`.
proof fn lemma_verifier_walk(
    p: spec_fn(Seq<u32>) -> Seq<u32>,
    hs: Seq<nat>,
    opened: Seq<Seq<u32>>,
    path: Seq<Seq<u32>>,
    index: nat,
    top: nat,
    nodes: Seq<Seq<u32>>,
    rows: Seq<Seq<u32>>,
    k: nat,
)
    requires
        k <= path.len(),
        tallest(hs) == top,
        opened.len() == hs.len(),
        rows.len() == path.len() + 1,
        forall|k: int|
            #![trigger rows[k]]
            0 <= k <= path.len() ==> rows[k] == Seq::new(
                opened.len(),
                |i: int| if hs[i] == top / pow2(k as nat) {
                    opened[i]
                } else {
                    Seq::empty()
                },
            ).flatten(),
        nodes.len() == path.len() + 1,
        nodes[0] == sponge_hash(p, rows[0]),
        forall|k: int|
            #![trigger nodes[k]]
            1 <= k <= path.len() ==> nodes[k] == ({
                let node = if (index / pow2((k - 1) as nat)) % 2 == 0 {
                    compress(p, nodes[k - 1], path[k - 1])
                } else {
                    compress(p, path[k - 1], nodes[k - 1])
                };
                if hs.contains(top / pow2(k as nat)) {
                    compress(p, node, sponge_hash(p, rows[k]))
                } else {
                    node
                }
            }),
    ensures
        nodes[k as int] == path_digest(p, hs, opened, path, index, k),
    decreases k,
{
    law_halvings_divide(top, k);
    law_joined_is_concatenation(opened, hs, halvings(top, k));
    assert(rows[k as int] == joined(opened, hs, halvings(top, k)));
    if k > 0 {
        let j = (k - 1) as nat;
        lemma_verifier_walk(p, hs, opened, path, index, top, nodes, rows, j);
        law_halvings_divide(index, j);
        assert(nodes[k as int] == ({
            let node = if (index / pow2(j)) % 2 == 0 {
                compress(p, nodes[k - 1], path[k - 1])
            } else {
                compress(p, path[k - 1], nodes[k - 1])
            };
            if hs.contains(top / pow2(k)) {
                compress(p, node, sponge_hash(p, rows[k as int]))
            } else {
                node
            }
        }));
    }
}

/// What a verifier accepts. It hashes the opened rows of the tallest matrices. Then, from
/// each layer to the next, it compresses the node with its sibling, the even one of the
/// two first, and compresses the result with the digest of the opened rows whose height
/// is the length of that layer. The opening is accepted just where each height is the
/// tallest divided by a power of two, and the last node is entry `index / 2^siblings` of
/// the cap.
pub proof fn law_verifier_walk(
    p: spec_fn(Seq<u32>) -> Seq<u32>,
    cap: Seq<Seq<u32>>,
    hs: Seq<nat>,
    opened: Seq<Seq<u32>>,
    path: Seq<Seq<u32>>,
    index: nat,
    top: nat,
    a: nat,
    nodes: Seq<Seq<u32>>,
    rows: Seq<Seq<u32>>,
)
    requires
        forall|i: int| 0 <= i < hs.len() ==> #[trigger] hs[i] <= top,
        hs.contains(top),
        top <= pow2(a),
        a > 0 ==> pow2((a - 1) as nat) < top,
        opened.len() == hs.len(),
        rows.len() == path.len() + 1,
        forall|k: int|
            #![trigger rows[k]]
            0 <= k <= path.len() ==> rows[k] == Seq::new(
                opened.len(),
                |i: int| if hs[i] == top / pow2(k as nat) {
                    opened[i]
                } else {
                    Seq::empty()
                },
            ).flatten(),
        nodes.len() == path.len() + 1,
        nodes[0] == sponge_hash(p, rows[0]),
        forall|k: int|
            #![trigger nodes[k]]
            1 <= k <= path.len() ==> nodes[k] == ({
                let node = if (index / pow2((k - 1) as nat)) % 2 == 0 {
                    compress(p, nodes[k - 1], path[k - 1])
                } else {
                    compress(p, path[k - 1], nodes[k - 1])
                };
                if hs.contains(top / pow2(k as nat)) {
                    compress(p, node, sponge_hash(p, rows[k]))
                } else {
                    node
                }
            }),
    ensures
        heights_fit(hs) <==> forall|i: int|
            0 <= i < hs.len() ==> exists|j: nat|
                j <= a && #[trigger] hs[i] == top / #[trigger] pow2(j),
        opening_matches(p, cap, hs, index, opened, path) <==> heights_fit(hs) && nodes.last()
            == cap[(index / pow2(path.len())) as int],
{
    law_tallest(hs, top);
    lemma_ceil_log_unique(top, a);
    lemma_verifier_walk(p, hs, opened, path, index, top, nodes, rows, path.len());
    law_halvings_divide(index, path.len());
    assert forall|i: int| 0 <= i < hs.len() implies is_layer_len(top, #[trigger] hs[i], a) == (
    exists|j: nat| j <= a && hs[i] == top / #[trigger] pow2(j)) by {
        if is_layer_len(top, hs[i], a) {
            let j = choose|j: nat| j <= a && #[trigger] halvings(top, j) == hs[i];
            law_halvings_divide(top, j);
            assert(hs[i] == top / pow2(j));
        }
        if exists|j: nat| j <= a && hs[i] == top / #[trigger] pow2(j) {
            let j = choose|j: nat| j <= a && hs[i] == top / #[trigger] pow2(j);
            law_halvings_divide(top, j);
            assert(halvings(top, j) == hs[i]);
        }
    }
}

} // verus!
