//! Authentication paths: what is opened at an index, and the digest that a verifier
//! recomputes from it.
#[allow(unused_imports)]
use crate::hash::{compress, sponge_hash};
#[allow(unused_imports)]
use crate::batch::halved;
#[allow(unused_imports)]
use crate::tree::{
    ceil_log2, depth, halvings, heights, is_committable, is_power_of_two, joined, lemma_depth,
    lemma_halvings_step, lemma_layer_len, lemma_tallest, lemma_top, rows_at, tallest, tree_layer,
    tree_layers,
};
use vstd::prelude::*;

verus! {

/// The other index of the pair that `i` belongs to.
pub open spec fn sibling(i: nat) -> nat {
    if i % 2 == 0 {
        i + 1
    } else {
        (i - 1) as nat
    }
}

/// The row of a matrix of height `h` that is opened at `index` in a batch whose tallest
/// matrix has `top` rows: the low bits that the shorter matrix lacks are dropped.
pub open spec fn row_index(top: nat, h: nat, index: nat) -> nat {
    halvings(index, (ceil_log2(top) - ceil_log2(h)) as nat)
}

/// The row that each matrix opens at `index`.
pub open spec fn opened_rows(ts: Seq<Seq<Seq<u32>>>, index: nat) -> Seq<Seq<u32>> {
    Seq::new(
        ts.len(),
        |i: int| ts[i][row_index(tallest(heights(ts)), ts[i].len(), index) as int],
    )
}

/// The siblings of the nodes above leaf `index` in the first `levels` layers.
pub open spec fn sibling_path(
    layers: Seq<Seq<Seq<u32>>>,
    index: nat,
    levels: nat,
) -> Seq<Seq<u32>> {
    Seq::new(levels, |l: int| layers[l][sibling(halvings(index, l as nat)) as int])
}

/// The layers below the cap: all but the root's where the cap height is zero, fewer by
/// one for each step of cap height, and none once the cap is the leaf layer.
pub open spec fn proof_levels(num_layers: nat, cap_height: nat) -> nat {
    if cap_height + 1 < num_layers {
        (num_layers - 1 - cap_height) as nat
    } else {
        0
    }
}

/// `h` is the number of nodes in one of the layers `0` to `k` over `top` leaves.
pub open spec fn is_layer_len(top: nat, h: nat, k: nat) -> bool {
    exists|j: nat| j <= k && #[trigger] halvings(top, j) == h
}

/// Every height is the length of a layer over the tallest, as in a batch that can be
/// committed to.
pub open spec fn heights_fit(hs: Seq<nat>) -> bool {
    forall|i: int|
        0 <= i < hs.len() ==> is_layer_len(tallest(hs), #[trigger] hs[i], ceil_log2(tallest(hs)))
}

/// The number of siblings that lead from a row of the tallest matrix, of `top` rows, to
/// the cap.
pub open spec fn path_len(top: nat, cap_height: nat) -> nat {
    proof_levels(ceil_log2(top) + 1, cap_height)
}

/// A node and its sibling in the order in which they are compressed, where the node is
/// number `at` of its layer.
pub open spec fn children(node: Seq<u32>, other: Seq<u32>, at: nat) -> (Seq<u32>, Seq<u32>) {
    if at % 2 == 0 {
        (node, other)
    } else {
        (other, node)
    }
}

/// The node of layer `k` that a verifier recomputes from opened rows and siblings.
pub open spec fn path_digest(
    p: spec_fn(Seq<u32>) -> Seq<u32>,
    hs: Seq<nat>,
    opened: Seq<Seq<u32>>,
    path: Seq<Seq<u32>>,
    index: nat,
    k: nat,
) -> Seq<u32>
    decreases k,
{
    let rows = joined(opened, hs, halvings(tallest(hs), k));
    if k == 0 {
        sponge_hash(p, rows)
    } else {
        let below = path_digest(p, hs, opened, path, index, (k - 1) as nat);
        let pair = children(below, path[k - 1], halvings(index, (k - 1) as nat));
        let node = compress(p, pair.0, pair.1);
        if hs.contains(halvings(tallest(hs), k)) {
            compress(p, node, sponge_hash(p, rows))
        } else {
            node
        }
    }
}

/// Whether an opening leads to the entry of the cap above `index`. Where a height is not
/// the length of a layer there is no tree for it to belong to.
pub open spec fn opening_matches(
    p: spec_fn(Seq<u32>) -> Seq<u32>,
    cap: Seq<Seq<u32>>,
    hs: Seq<nat>,
    index: nat,
    opened: Seq<Seq<u32>>,
    path: Seq<Seq<u32>>,
) -> bool {
    &&& heights_fit(hs)
    &&& path_digest(p, hs, opened, path, index, path.len()) == cap[halvings(
        index,
        path.len(),
    ) as int]
}

/// A right shift is that many halvings.
pub proof fn lemma_shift(x: usize, k: usize)
    requires
        k < usize::BITS,
    ensures
        (x >> k) == halvings(x as nat, k as nat),
    decreases k,
{
    if k == 0 {
        assert(x >> 0usize == x) by (bit_vector);
    } else {
        let j: usize = (k - 1) as usize;
        lemma_shift(x, j);
        assert(x >> k == (x >> j) / 2) by (bit_vector)
            requires
                0 < k < usize::BITS,
                j == k - 1,
        ;
    }
}

/// Of two powers of two the smaller is at most half the larger.
proof fn lemma_power_gap(m: nat, n: nat)
    requires
        is_power_of_two(m),
        is_power_of_two(n),
        m < n,
    ensures
        m <= n / 2,
    decreases n,
{
    if m > 1 {
        lemma_power_gap(m / 2, n / 2);
        assert(is_power_of_two(n / 2));
    }
}

/// A power of two is any larger one halved as often as their depths differ.
pub proof fn lemma_power_chain(m: nat, n: nat)
    requires
        is_power_of_two(m),
        is_power_of_two(n),
        m <= n,
    ensures
        depth(m) <= depth(n),
        halvings(n, (depth(n) - depth(m)) as nat) == m,
    decreases n,
{
    if m < n {
        lemma_power_gap(m, n);
        lemma_power_chain(m, n / 2);
        lemma_halvings_step(n, (depth(n / 2) - depth(m)) as nat);
    }
}

/// A power of two stays one while it is halved, and is even before each halving.
pub proof fn lemma_power_halved(n: nat, l: nat)
    requires
        is_power_of_two(n),
        l <= depth(n),
    ensures
        is_power_of_two(halvings(n, l)),
        depth(halvings(n, l)) == depth(n) - l,
        l < depth(n) ==> halvings(n, l) % 2 == 0,
    decreases l,
{
    if l > 0 {
        lemma_power_halved(n, (l - 1) as nat);
    }
}

/// The logarithm of a power of two is its depth.
pub proof fn lemma_power_log(n: nat)
    requires
        is_power_of_two(n),
    ensures
        ceil_log2(n) == depth(n),
    decreases n,
{
    if n > 1 {
        lemma_power_log(n / 2);
        assert((n + 1) / 2 == n / 2);
    }
}

/// The node above a leaf lies within each layer, and so does its sibling below the root.
pub proof fn lemma_node_in_layer(top: nat, index: nat, l: nat)
    requires
        is_power_of_two(top),
        index < top,
        l <= depth(top),
    ensures
        halvings(index, l) < halvings(top, l),
        l < depth(top) ==> sibling(halvings(index, l)) < halvings(top, l),
    decreases l,
{
    lemma_power_halved(top, l);
    if l > 0 {
        lemma_node_in_layer(top, index, (l - 1) as nat);
        lemma_power_halved(top, (l - 1) as nat);
    }
}

/// A machine word is halved to one in fewer steps than it has bits.
pub proof fn lemma_word_depth(x: usize)
    requires
        x >= 1,
    ensures
        depth(x as nat) < usize::BITS,
{
    let k: usize = (usize::BITS - 1) as usize;
    lemma_shift(x, k);
    assert(x >> k <= 1) by (bit_vector)
        requires
            k == usize::BITS - 1,
    ;
    lemma_depth(x as nat);
}

/// The row that a matrix opens is one of its rows.
pub proof fn lemma_row_index(top: nat, h: nat, index: nat)
    requires
        is_power_of_two(top),
        is_power_of_two(h),
        h <= top,
        index < top,
    ensures
        row_index(top, h, index) == halvings(index, (depth(top) - depth(h)) as nat),
        row_index(top, h, index) < h,
{
    lemma_power_log(top);
    lemma_power_log(h);
    lemma_power_chain(h, top);
    lemma_node_in_layer(top, index, (depth(top) - depth(h)) as nat);
}

/// Joining looks only at the parts that belong to the height.
pub proof fn lemma_joined_same(a: Seq<Seq<u32>>, b: Seq<Seq<u32>>, hs: Seq<nat>, h: nat)
    requires
        a.len() == b.len(),
        forall|i: int| 0 <= i < a.len() && hs[i] == h ==> #[trigger] a[i] == b[i],
    ensures
        joined(a, hs, h) == joined(b, hs, h),
    decreases a.len(),
{
    if a.len() > 0 {
        lemma_joined_same(a.drop_last(), b.drop_last(), hs, h);
        assert(hs[a.len() - 1] == h ==> a[a.len() - 1] == b[a.len() - 1]);
    }
}

/// The heights of a batch that can be committed to are lengths of layers.
pub proof fn lemma_heights_fit(ts: Seq<Seq<Seq<u32>>>)
    requires
        is_committable(ts),
    ensures
        heights_fit(heights(ts)),
{
    let hs = heights(ts);
    let top = tallest(hs);
    lemma_top(ts);
    lemma_tallest(hs);
    lemma_power_log(top);
    assert forall|i: int| 0 <= i < hs.len() implies is_layer_len(
        top,
        #[trigger] hs[i],
        ceil_log2(top),
    ) by {
        assert(is_power_of_two(ts[i].len()));
        lemma_power_chain(hs[i], top);
        assert(halvings(top, (depth(top) - depth(hs[i])) as nat) == hs[i]);
    }
}

/// An opening of a committed batch leads to the node of each layer above the index.
pub proof fn lemma_path(
    p: spec_fn(Seq<u32>) -> Seq<u32>,
    ts: Seq<Seq<Seq<u32>>>,
    index: nat,
    levels: nat,
    k: nat,
)
    requires
        is_committable(ts),
        index < tallest(heights(ts)),
        k <= levels <= depth(tallest(heights(ts))),
    ensures
        path_digest(
            p,
            heights(ts),
            opened_rows(ts, index),
            sibling_path(tree_layers(p, ts), index, levels),
            index,
            k,
        ) == tree_layer(p, ts, k)[halvings(index, k) as int],
    decreases k,
{
    let hs = heights(ts);
    let top = tallest(hs);
    let opened = opened_rows(ts, index);
    let path = sibling_path(tree_layers(p, ts), index, levels);
    lemma_top(ts);
    lemma_tallest(hs);
    lemma_node_in_layer(top, index, k);
    let len = halvings(top, k);
    let at = halvings(index, k);
    assert(joined(opened, hs, len) == joined(rows_at(ts, at as int), hs, len)) by {
        let rows = rows_at(ts, at as int);
        lemma_power_halved(top, k);
        assert forall|i: int| 0 <= i < opened.len() && hs[i] == len implies #[trigger] opened[i]
            == rows[i] by {
            assert(hs[i] <= top);
            assert(is_power_of_two(ts[i].len()));
            lemma_row_index(top, hs[i], index);
        }
        lemma_joined_same(opened, rows, hs, len);
    }
    lemma_layer_len(p, ts, k);
    if k > 0 {
        let j = (k - 1) as nat;
        lemma_path(p, ts, index, levels, j);
        lemma_layer_len(p, ts, j);
        lemma_node_in_layer(top, index, j);
        let below = tree_layer(p, ts, j);
        let half = halved(p, below);
        let i = halvings(index, j);
        assert(path[j as int] == below[sibling(i) as int]);
        assert(half[at as int] == compress(p, below[2 * (at as int)], below[2 * (at as int) + 1]));
        assert(half.len() == len);
    }
}

} // verus!
