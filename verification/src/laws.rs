//! What holds across the functions of the library.
//!
//! The laws are stated for an arbitrary permutation `p`, and so for the host and for any
//! device that computes the permutations of a commitment.
#[allow(unused_imports)]
use crate::batch::{halved, hashed};
#[allow(unused_imports)]
use crate::field::{is_canonical, reduced};
#[allow(unused_imports)]
use crate::gpu_mmcs::cap_layer;
#[allow(unused_imports)]
use crate::hash::{compress, sponge_hash, sponge_state, zero_state};
#[allow(unused_imports)]
use crate::path::{
    children, is_layer_len, lemma_heights_fit, lemma_node_in_layer, lemma_path, lemma_power_halved,
    lemma_power_log, opened_rows, opening_matches, path_digest, path_len, proof_levels,
    sibling_path,
};
#[allow(unused_imports)]
use crate::tree::{
    ceil_log2, depth, halvings, heights, is_committable, is_power_of_two, joined, lemma_depth,
    lemma_layer_len, lemma_tallest, lemma_top, level_rows, rows_at, tallest, tree_layer,
    tree_layers, tree_root,
};
use vstd::prelude::*;

verus! {

/// What a committed batch opens at any index verifies against its commitment: the rows
/// and siblings that `open_batch` hands out are as many as `verify_batch` asks for and
/// lead to the cap entry that it compares with, and that entry exists.
pub proof fn law_opening_verifies(
    p: spec_fn(Seq<u32>) -> Seq<u32>,
    ts: Seq<Seq<Seq<u32>>>,
    cap_height: nat,
    index: nat,
)
    requires
        is_committable(ts),
        index < tallest(heights(ts)),
    ensures
        ({
            let layers = tree_layers(p, ts);
            let levels = proof_levels(layers.len(), cap_height);
            let cap = cap_layer(p, ts, cap_height);
            let path = sibling_path(layers, index, levels);
            &&& path.len() == path_len(tallest(heights(ts)), cap_height)
            &&& halvings(index, path.len()) < cap.len()
            &&& opening_matches(p, cap, heights(ts), index, opened_rows(ts, index), path)
        }),
{
    let top = tallest(heights(ts));
    let levels = proof_levels(tree_layers(p, ts).len(), cap_height);
    lemma_top(ts);
    lemma_node_in_layer(top, index, levels);
    lemma_layer_len(p, ts, levels);
    lemma_path(p, ts, index, levels, levels);
    lemma_heights_fit(ts);
    lemma_power_log(top);
}

/// A cap of height zero is the root alone, the digest that `commit_root_via_gpu_mixed`
/// returns for the same matrices.
pub proof fn law_cap_at_zero_is_root(
    p: spec_fn(Seq<u32>) -> Seq<u32>,
    ts: Seq<Seq<Seq<u32>>>,
)
    requires
        is_committable(ts),
    ensures
        cap_layer(p, ts, 0) == seq![tree_root(p, ts)],
{
    let top = tallest(heights(ts));
    lemma_top(ts);
    lemma_depth(top);
    lemma_layer_len(p, ts, depth(top));
    assert(cap_layer(p, ts, 0) =~= seq![tree_root(p, ts)]);
}

/// A cap of height `h` has `2^h` entries, or one for each leaf where the tree is lower.
pub proof fn law_cap_size(
    p: spec_fn(Seq<u32>) -> Seq<u32>,
    ts: Seq<Seq<Seq<u32>>>,
    cap_height: nat,
)
    requires
        is_committable(ts),
    ensures
        is_power_of_two(cap_layer(p, ts, cap_height).len()),
        depth(cap_layer(p, ts, cap_height).len()) == if cap_height < depth(
            tallest(heights(ts)),
        ) {
            cap_height
        } else {
            depth(tallest(heights(ts)))
        },
{
    let top = tallest(heights(ts));
    let levels = proof_levels(depth(top) + 1, cap_height);
    lemma_top(ts);
    lemma_layer_len(p, ts, levels);
    lemma_power_halved(top, levels);
}

/// The leaves are as many as the tallest matrix has rows, each layer has half the nodes
/// of the one below, and the last has one.
pub proof fn law_layers_halve(
    p: spec_fn(Seq<u32>) -> Seq<u32>,
    ts: Seq<Seq<Seq<u32>>>,
    l: nat,
)
    requires
        is_committable(ts),
        l < depth(tallest(heights(ts))),
    ensures
        tree_layers(p, ts)[0].len() == tallest(heights(ts)),
        2 * tree_layers(p, ts)[l as int + 1].len() == tree_layers(p, ts)[l as int].len(),
        tree_layers(p, ts).last().len() == 1,
{
    let top = tallest(heights(ts));
    lemma_top(ts);
    lemma_depth(top);
    lemma_power_halved(top, l);
    lemma_layer_len(p, ts, 0);
    lemma_layer_len(p, ts, l);
    lemma_layer_len(p, ts, l + 1);
    lemma_layer_len(p, ts, depth(top));
}

/// A row without elements hashes to zeros, whatever the permutation.
pub proof fn law_empty_row_digest(p: spec_fn(Seq<u32>) -> Seq<u32>)
    ensures
        sponge_hash(p, Seq::empty()) == Seq::new(8, |i: int| 0u32),
{
    assert(sponge_state(p, Seq::empty(), 0) == zero_state());
    assert(sponge_hash(p, Seq::empty()) =~= Seq::new(8, |i: int| 0u32));
}

/// Hashing two batches of rows as one gives the digests of both: no row depends on the
/// rows it is hashed along with.
pub proof fn law_rows_hash_alone(
    p: spec_fn(Seq<u32>) -> Seq<u32>,
    a: Seq<Seq<u32>>,
    b: Seq<Seq<u32>>,
)
    ensures
        hashed(p, a + b) == hashed(p, a) + hashed(p, b),
{
    assert(hashed(p, a + b) =~= hashed(p, a) + hashed(p, b));
}

/// Canonical limbs survive the way to field elements and back.
pub proof fn law_canonical_round_trip(canon: Seq<u32>)
    requires
        is_canonical(canon),
    ensures
        reduced(canon) == canon,
{
    assert(reduced(canon) =~= canon);
}

/// Joining two runs of parts one after the other joins them all.
proof fn lemma_joined_append(
    a: Seq<Seq<u32>>,
    ha: Seq<nat>,
    b: Seq<Seq<u32>>,
    hb: Seq<nat>,
    h: nat,
)
    requires
        a.len() == ha.len(),
        b.len() == hb.len(),
    ensures
        joined(a + b, ha + hb, h) == joined(a, ha, h) + joined(b, hb, h),
    decreases b.len(),
{
    if b.len() == 0 {
        assert(a + b =~= a);
        lemma_joined_heights(a, ha + hb, ha, h);
        assert(joined(a, ha, h) + joined(b, hb, h) =~= joined(a, ha, h));
    } else {
        let front = b.drop_last();
        let hfront = hb.drop_last();
        lemma_joined_append(a, ha, front, hfront, h);
        assert((a + b).drop_last() =~= a + front);
        lemma_joined_heights(a + front, ha + hb, ha + hfront, h);
        lemma_joined_heights(front, hb, hfront, h);
        assert(joined(a + b, ha + hb, h) =~= joined(a, ha, h) + joined(b, hb, h));
    }
}

/// Joining looks at as many heights as there are parts.
proof fn lemma_joined_heights(parts: Seq<Seq<u32>>, x: Seq<nat>, y: Seq<nat>, h: nat)
    requires
        forall|i: int| 0 <= i < parts.len() ==> #[trigger] x[i] == y[i],
    ensures
        joined(parts, x, h) == joined(parts, y, h),
    decreases parts.len(),
{
    if parts.len() > 0 {
        lemma_joined_heights(parts.drop_last(), x, y, h);
        assert(x[parts.len() - 1] == y[parts.len() - 1]);
    }
}

/// Row `r` of the matrices of height `h`, joined.
spec fn level_row(ts: Seq<Seq<Seq<u32>>>, h: nat, r: int) -> Seq<u32> {
    joined(rows_at(ts, r), heights(ts), h)
}

/// The joined row of two runs of matrices.
proof fn lemma_level_append(a: Seq<Seq<Seq<u32>>>, b: Seq<Seq<Seq<u32>>>, h: nat, r: int)
    ensures
        level_row(a + b, h, r) == level_row(a, h, r) + level_row(b, h, r),
{
    assert(rows_at(a + b, r) =~= rows_at(a, r) + rows_at(b, r));
    assert(heights(a + b) =~= heights(a) + heights(b));
    lemma_joined_append(rows_at(a, r), heights(a), rows_at(b, r), heights(b), h);
}

/// The joined row of one matrix.
proof fn lemma_level_one(a: Seq<Seq<u32>>, h: nat, r: int)
    ensures
        level_row(seq![a], h, r) == if a.len() == h {
            a[r]
        } else {
            Seq::empty()
        },
{
    reveal_with_fuel(joined, 2);
    let parts = rows_at(seq![a], r);
    assert(parts.drop_last() =~= Seq::empty());
    assert(level_row(seq![a], h, r) =~= if a.len() == h {
        a[r]
    } else {
        Seq::empty()
    });
}

/// Matrices of other heights add nothing to the joined row.
proof fn lemma_level_none(ts: Seq<Seq<Seq<u32>>>, h: nat, r: int)
    requires
        forall|i: int| 0 <= i < ts.len() ==> #[trigger] ts[i].len() != h,
    ensures
        level_row(ts, h, r) == Seq::<u32>::empty(),
    decreases ts.len(),
{
    if ts.len() > 0 {
        let front = ts.drop_last();
        lemma_level_none(front, h, r);
        assert(ts =~= front + seq![ts.last()]);
        lemma_level_append(front, seq![ts.last()], h, r);
        lemma_level_one(ts.last(), h, r);
        assert(ts[ts.len() - 1].len() != h);
    }
}

/// Batches with the same heights and the same joined rows have the same tree.
proof fn lemma_same_layers(
    p: spec_fn(Seq<u32>) -> Seq<u32>,
    x: Seq<Seq<Seq<u32>>>,
    y: Seq<Seq<Seq<u32>>>,
)
    requires
        x.len() > 0,
        y.len() > 0,
        forall|h: nat| heights(x).contains(h) <==> #[trigger] heights(y).contains(h),
        forall|h: nat| #[trigger] level_rows(x, h) == level_rows(y, h),
    ensures
        tree_layers(p, x) == tree_layers(p, y),
{
    lemma_tallest(heights(x));
    lemma_tallest(heights(y));
    assert(heights(y).contains(tallest(heights(x))));
    assert(heights(x).contains(tallest(heights(y))));
    let top = tallest(heights(x));
    assert(top == tallest(heights(y)));
    assert forall|l: int| 0 <= l <= depth(top) implies #[trigger] tree_layers(p, x)[l]
        == tree_layers(p, y)[l] by {
        lemma_same_layer(p, x, y, l as nat);
    }
    assert(tree_layers(p, x) =~= tree_layers(p, y));
}

/// One layer of `lemma_same_layers`.
proof fn lemma_same_layer(
    p: spec_fn(Seq<u32>) -> Seq<u32>,
    x: Seq<Seq<Seq<u32>>>,
    y: Seq<Seq<Seq<u32>>>,
    l: nat,
)
    requires
        tallest(heights(x)) == tallest(heights(y)),
        forall|h: nat| heights(x).contains(h) <==> #[trigger] heights(y).contains(h),
        forall|h: nat| #[trigger] level_rows(x, h) == level_rows(y, h),
    ensures
        tree_layer(p, x, l) == tree_layer(p, y, l),
    decreases l,
{
    if l == 0 {
        assert(level_rows(x, tallest(heights(x))) == level_rows(y, tallest(heights(y))));
    } else {
        lemma_same_layer(p, x, y, (l - 1) as nat);
        let half = halved(p, tree_layer(p, x, (l - 1) as nat));
        assert(heights(x).contains(half.len()) <==> heights(y).contains(half.len()));
        assert(level_rows(x, half.len()) == level_rows(y, half.len()));
    }
}

/// Two matrices of one height side by side.
pub open spec fn beside(a: Seq<Seq<u32>>, b: Seq<Seq<u32>>) -> Seq<Seq<u32>> {
    Seq::new(a.len(), |r: int| a[r] + b[r])
}

/// Two matrices of one height count as one, their rows joined, at the place of the
/// first. Matrices of other heights may stand between them.
pub proof fn law_same_height_is_side_by_side(
    p: spec_fn(Seq<u32>) -> Seq<u32>,
    before: Seq<Seq<Seq<u32>>>,
    a: Seq<Seq<u32>>,
    between: Seq<Seq<Seq<u32>>>,
    b: Seq<Seq<u32>>,
    after: Seq<Seq<Seq<u32>>>,
)
    requires
        a.len() == b.len(),
        forall|i: int| 0 <= i < between.len() ==> #[trigger] between[i].len() != a.len(),
    ensures
        tree_layers(p, before + seq![a] + between + seq![b] + after) == tree_layers(
            p,
            before + seq![Seq::new(a.len(), |r: int| a[r] + b[r])] + between + after,
        ),
{
    assert(beside(a, b) =~= Seq::new(a.len(), |r: int| a[r] + b[r]));
    let x = before + seq![a] + between + seq![b] + after;
    let y = before + seq![beside(a, b)] + between + after;
    let n = before.len() as int;
    let m = n + 1 + between.len();
    assert forall|h: nat| heights(x).contains(h) <==> #[trigger] heights(y).contains(h) by {
        if heights(x).contains(h) {
            let i = choose|i: int| 0 <= i < x.len() && heights(x)[i] == h;
            let j = if i < m {
                i
            } else if i == m {
                n
            } else {
                i - 1
            };
            assert(heights(y)[j] == h);
        }
        if heights(y).contains(h) {
            let j = choose|j: int| 0 <= j < y.len() && heights(y)[j] == h;
            let i = if j < m {
                j
            } else {
                j + 1
            };
            assert(heights(x)[i] == h);
        }
    }
    assert forall|h: nat| #[trigger] level_rows(x, h) == level_rows(y, h) by {
        assert forall|r: int| 0 <= r < h implies level_rows(x, h)[r] == level_rows(y, h)[r] by {
            lemma_level_append(before + seq![a] + between + seq![b], after, h, r);
            lemma_level_append(before + seq![a] + between, seq![b], h, r);
            lemma_level_append(before + seq![a], between, h, r);
            lemma_level_append(before, seq![a], h, r);
            lemma_level_append(before + seq![beside(a, b)] + between, after, h, r);
            lemma_level_append(before + seq![beside(a, b)], between, h, r);
            lemma_level_append(before, seq![beside(a, b)], h, r);
            lemma_level_one(a, h, r);
            lemma_level_one(b, h, r);
            lemma_level_one(beside(a, b), h, r);
            if h == a.len() {
                lemma_level_none(between, h, r);
            }
            assert(level_row(x, h, r) =~= level_row(y, h, r));
        }
        assert(level_rows(x, h) =~= level_rows(y, h));
    }
    lemma_same_layers(p, x, y);
}

/// `y` holds the matrices of `x` in the order that `order` gives, and matrices of one
/// height stand in `y` as they stand in `x`.
pub open spec fn is_reordering(
    x: Seq<Seq<Seq<u32>>>,
    y: Seq<Seq<Seq<u32>>>,
    order: Seq<int>,
) -> bool {
    &&& y.len() == x.len()
    &&& order.len() == x.len()
    &&& forall|i: int|
        0 <= i < order.len() ==> 0 <= #[trigger] order[i] < x.len() && y[i] == x[order[i]]
    &&& forall|j: int| 0 <= j < x.len() ==> #[trigger] order.contains(j)
    &&& forall|i: int, j: int|
        0 <= i < j < order.len() ==> #[trigger] order[i] != #[trigger] order[j]
    &&& forall|i: int, j: int|
        0 <= i < j < y.len() && #[trigger] y[i].len() == #[trigger] y[j].len() ==> order[i]
            < order[j]
}

/// Taking the last matrix away from both sides of a reordering.
proof fn lemma_reordering_front(
    x: Seq<Seq<Seq<u32>>>,
    y: Seq<Seq<Seq<u32>>>,
    order: Seq<int>,
) -> (rest: Seq<int>)
    requires
        is_reordering(x, y, order),
        y.len() > 0,
    ensures
        is_reordering(x.remove(order.last()), y.drop_last(), rest),
        forall|j: int|
            order.last() < j < x.len() ==> #[trigger] x[j].len() != x[order.last()].len(),
{
    let n = order.len() - 1;
    let m = order.last();
    let rest = Seq::new(
        n as nat,
        |i: int| if order[i] < m {
            order[i]
        } else {
            order[i] - 1
        },
    );
    let fewer = x.remove(m);
    let front = y.drop_last();
    assert(order[n] == m && y[n] == x[m]);
    assert forall|i: int| 0 <= i < n implies 0 <= #[trigger] rest[i] < fewer.len() && front[i]
        == fewer[rest[i]] by {
        assert(order[i] != order[n]);
    }
    assert forall|j: int| 0 <= j < fewer.len() implies #[trigger] rest.contains(j) by {
        let k = if j < m {
            j
        } else {
            j + 1
        };
        assert(order.contains(k));
        let i = choose|i: int| 0 <= i < order.len() && order[i] == k;
        assert(rest[i] == j);
    }
    assert forall|i: int, j: int| 0 <= i < j < n implies #[trigger] rest[i]
        != #[trigger] rest[j] by {
        assert(order[i] != order[j]);
        assert(order[i] != order[n]);
        assert(order[j] != order[n]);
    }
    assert forall|i: int, j: int|
        0 <= i < j < front.len() && #[trigger] front[i].len() == #[trigger] front[j].len() implies
            rest[i] < rest[j] by {
        assert(y[i].len() == y[j].len());
        assert(order[i] != order[n]);
        assert(order[j] != order[n]);
    }
    assert forall|j: int| m < j < x.len() implies #[trigger] x[j].len() != x[m].len() by {
        assert(order.contains(j));
        let i = choose|i: int| 0 <= i < order.len() && order[i] == j;
        assert(y[i] == x[j]);
        if x[j].len() == x[m].len() {
            assert(y[i].len() == y[n].len());
        }
    }
    rest
}

/// A reordering keeps every joined row.
proof fn lemma_reordered_row(
    x: Seq<Seq<Seq<u32>>>,
    y: Seq<Seq<Seq<u32>>>,
    order: Seq<int>,
    h: nat,
    r: int,
)
    requires
        is_reordering(x, y, order),
    ensures
        level_row(x, h, r) == level_row(y, h, r),
    decreases y.len(),
{
    if y.len() == 0 {
        assert(x =~= y);
    } else {
        let n = order.len() - 1;
        let m = order.last();
        let rest = lemma_reordering_front(x, y, order);
        lemma_reordered_row(x.remove(m), y.drop_last(), rest, h, r);
        let head = x.take(m);
        let tail = x.skip(m + 1);
        assert(order[n] == m && y[n] == x[m]);
        assert(x =~= head + seq![x[m]] + tail);
        assert(x.remove(m) =~= head + tail);
        assert(y =~= y.drop_last() + seq![x[m]]);
        lemma_level_append(head + seq![x[m]], tail, h, r);
        lemma_level_append(head, seq![x[m]], h, r);
        lemma_level_append(head, tail, h, r);
        lemma_level_append(y.drop_last(), seq![x[m]], h, r);
        lemma_level_one(x[m], h, r);
        if x[m].len() == h {
            assert forall|i: int| 0 <= i < tail.len() implies #[trigger] tail[i].len() != h by {
                assert(x[m + 1 + i].len() != x[m].len());
            }
            lemma_level_none(tail, h, r);
        }
        assert(level_row(x, h, r) =~= level_row(y, h, r));
    }
}

/// Matrices may be reordered, as long as those of one height keep their order: the tree
/// stays the same.
pub proof fn law_reordering_keeps_tree(
    p: spec_fn(Seq<u32>) -> Seq<u32>,
    x: Seq<Seq<Seq<u32>>>,
    y: Seq<Seq<Seq<u32>>>,
    order: Seq<int>,
)
    requires
        is_reordering(x, y, order),
    ensures
        tree_layers(p, x) == tree_layers(p, y),
{
    if x.len() == 0 {
        assert(x =~= y);
    } else {
        assert forall|h: nat| heights(x).contains(h) <==> #[trigger] heights(y).contains(h) by {
            if heights(x).contains(h) {
                let j = choose|j: int| 0 <= j < x.len() && heights(x)[j] == h;
                assert(order.contains(j));
                let i = choose|i: int| 0 <= i < order.len() && order[i] == j;
                assert(heights(y)[i] == h);
            }
            if heights(y).contains(h) {
                let i = choose|i: int| 0 <= i < y.len() && heights(y)[i] == h;
                assert(heights(x)[order[i]] == h);
            }
        }
        assert forall|h: nat| #[trigger] level_rows(x, h) == level_rows(y, h) by {
            assert forall|r: int| 0 <= r < h implies level_rows(x, h)[r] == level_rows(
                y,
                h,
            )[r] by {
                lemma_reordered_row(x, y, order, h, r);
            }
            assert(level_rows(x, h) =~= level_rows(y, h));
        }
        lemma_same_layers(p, x, y);
    }
}

/// The sponge does not take two different rows to one digest.
pub open spec fn sponge_separates(
    p: spec_fn(Seq<u32>) -> Seq<u32>,
    x: Seq<u32>,
    y: Seq<u32>,
) -> bool {
    sponge_hash(p, x) == sponge_hash(p, y) ==> x == y
}

/// The compression does not take two different pairs to one digest.
pub open spec fn compress_separates(
    p: spec_fn(Seq<u32>) -> Seq<u32>,
    x: (Seq<u32>, Seq<u32>),
    y: (Seq<u32>, Seq<u32>),
) -> bool {
    compress(p, x.0, x.1) == compress(p, y.0, y.1) ==> x == y
}

/// The pair that is compressed into layer `k >= 1` on the way up.
pub open spec fn path_pair(
    p: spec_fn(Seq<u32>) -> Seq<u32>,
    hs: Seq<nat>,
    opened: Seq<Seq<u32>>,
    path: Seq<Seq<u32>>,
    index: nat,
    k: nat,
) -> (Seq<u32>, Seq<u32>) {
    children(
        path_digest(p, hs, opened, path, index, (k - 1) as nat),
        path[k - 1],
        halvings(index, (k - 1) as nat),
    )
}

/// What the verification of two openings hashes and compresses for layer `k` shows no
/// collision.
pub open spec fn openings_separate(
    p: spec_fn(Seq<u32>) -> Seq<u32>,
    hs: Seq<nat>,
    index: nat,
    a: Seq<Seq<u32>>,
    path_a: Seq<Seq<u32>>,
    b: Seq<Seq<u32>>,
    path_b: Seq<Seq<u32>>,
    k: nat,
) -> bool {
    let len = halvings(tallest(hs), k);
    let row_a = joined(a, hs, len);
    let row_b = joined(b, hs, len);
    if k == 0 {
        sponge_separates(p, row_a, row_b)
    } else {
        let pair_a = path_pair(p, hs, a, path_a, index, k);
        let pair_b = path_pair(p, hs, b, path_b, index, k);
        &&& compress_separates(p, pair_a, pair_b)
        &&& hs.contains(len) ==> {
            &&& sponge_separates(p, row_a, row_b)
            &&& compress_separates(
                p,
                (compress(p, pair_a.0, pair_a.1), sponge_hash(p, row_a)),
                (compress(p, pair_b.0, pair_b.1), sponge_hash(p, row_b)),
            )
        }
    }
}

/// Openings that lead to one node of layer `k` have the same rows and siblings below.
proof fn lemma_walk_back(
    p: spec_fn(Seq<u32>) -> Seq<u32>,
    hs: Seq<nat>,
    index: nat,
    a: Seq<Seq<u32>>,
    path_a: Seq<Seq<u32>>,
    b: Seq<Seq<u32>>,
    path_b: Seq<Seq<u32>>,
    k: nat,
)
    requires
        hs.len() > 0,
        path_digest(p, hs, a, path_a, index, k) == path_digest(p, hs, b, path_b, index, k),
        forall|j: nat|
            j <= k ==> #[trigger] openings_separate(p, hs, index, a, path_a, b, path_b, j),
    ensures
        forall|j: nat|
            j <= k && hs.contains(#[trigger] halvings(tallest(hs), j)) ==> joined(
                a,
                hs,
                halvings(tallest(hs), j),
            ) == joined(b, hs, halvings(tallest(hs), j)),
        forall|j: int| 0 <= j < k ==> #[trigger] path_a[j] == path_b[j],
    decreases k,
{
    assert(openings_separate(p, hs, index, a, path_a, b, path_b, k));
    if k > 0 {
        assert(path_pair(p, hs, a, path_a, index, k) == path_pair(p, hs, b, path_b, index, k));
        lemma_walk_back(p, hs, index, a, path_a, b, path_b, (k - 1) as nat);
    }
}

/// Joined rows of the same widths are equal only where their parts are.
proof fn lemma_joined_parts(a: Seq<Seq<u32>>, b: Seq<Seq<u32>>, hs: Seq<nat>, h: nat)
    requires
        a.len() == b.len(),
        forall|i: int| 0 <= i < a.len() ==> #[trigger] a[i].len() == b[i].len(),
        joined(a, hs, h) == joined(b, hs, h),
    ensures
        forall|i: int| 0 <= i < a.len() && hs[i] == h ==> #[trigger] a[i] == b[i],
    decreases a.len(),
{
    if a.len() > 0 {
        let n = a.len() - 1;
        let front_a = joined(a.drop_last(), hs, h);
        let front_b = joined(b.drop_last(), hs, h);
        assert(a[n].len() == b[n].len());
        if hs[n] == h {
            assert(front_a + a[n] == front_b + b[n]);
            assert((front_a + a[n]).len() == (front_b + b[n]).len());
            assert(front_a =~= (front_a + a[n]).take(front_a.len() as int));
            assert(front_b =~= (front_b + b[n]).take(front_b.len() as int));
            assert(a[n] =~= (front_a + a[n]).skip(front_a.len() as int));
            assert(b[n] =~= (front_b + b[n]).skip(front_b.len() as int));
        }
        lemma_joined_parts(a.drop_last(), b.drop_last(), hs, h);
        assert forall|i: int| 0 <= i < a.len() && hs[i] == h implies #[trigger] a[i] == b[i] by {
            if i < n {
                assert(a.drop_last()[i] == b.drop_last()[i]);
            }
        }
    }
}

/// Two openings of the declared widths that are accepted at one index of one commitment
/// are the same, unless the sponge or the compression collides on what their verification
/// computes: they have the same siblings, and the same row of each matrix that enters the
/// tree at or below the cap. Under a cap of height zero that is every matrix.
pub proof fn law_accepted_openings_agree(
    p: spec_fn(Seq<u32>) -> Seq<u32>,
    cap: Seq<Seq<u32>>,
    hs: Seq<nat>,
    widths: Seq<nat>,
    index: nat,
    a: Seq<Seq<u32>>,
    path_a: Seq<Seq<u32>>,
    b: Seq<Seq<u32>>,
    path_b: Seq<Seq<u32>>,
)
    requires
        hs.len() > 0,
        a.len() == hs.len(),
        b.len() == hs.len(),
        forall|i: int|
            0 <= i < hs.len() ==> #[trigger] a[i].len() == widths[i] && b[i].len() == widths[i],
        path_a.len() == path_b.len(),
        opening_matches(p, cap, hs, index, a, path_a),
        opening_matches(p, cap, hs, index, b, path_b),
        forall|k: nat|
            k <= path_a.len() ==> #[trigger] openings_separate(
                p,
                hs,
                index,
                a,
                path_a,
                b,
                path_b,
                k,
            ),
    ensures
        path_a == path_b,
        forall|i: int|
            0 <= i < hs.len() && is_layer_len(tallest(hs), hs[i], path_a.len())
                ==> #[trigger] a[i] == b[i],
        path_a.len() == path_len(tallest(hs), 0) ==> a == b,
{
    let top = tallest(hs);
    lemma_walk_back(p, hs, index, a, path_a, b, path_b, path_a.len());
    assert(path_a =~= path_b);
    assert forall|i: int|
        0 <= i < hs.len() && is_layer_len(top, hs[i], path_a.len()) implies #[trigger] a[i]
        == b[i] by {
        let j = choose|j: nat| j <= path_a.len() && #[trigger] halvings(top, j) == hs[i];
        assert(hs.contains(halvings(top, j)));
        lemma_joined_parts(a, b, hs, hs[i]);
    }
    if path_a.len() == path_len(top, 0) {
        assert forall|i: int| 0 <= i < hs.len() implies a[i] == b[i] by {
            assert(is_layer_len(top, hs[i], ceil_log2(top)));
        }
        assert(a =~= b);
    }
}

} // verus!
