//! The shape of a hash tree over matrices of several heights.
//!
//! The rows of the tallest matrices are the leaves. Each layer above compresses the one
//! below pair by pair; where its length is the height of shorter matrices, the digests
//! of their rows are compressed into it. Rows of matrices of one height are joined.
#[allow(unused_imports)]
use crate::batch::{halved, hashed, paired};
#[allow(unused_imports)]
use crate::hash::{digests, Digest};
use vstd::prelude::*;

verus! {

/// `n` halved `k` times, rounding down.
pub open spec fn halvings(n: nat, k: nat) -> nat
    decreases k,
{
    if k == 0 {
        n
    } else {
        halvings(n, (k - 1) as nat) / 2
    }
}

/// One, or twice a power of two.
pub open spec fn is_power_of_two(n: nat) -> bool
    decreases n,
{
    n == 1 || (n > 1 && n % 2 == 0 && is_power_of_two(n / 2))
}

/// The number of halvings that bring `n` down to one.
pub open spec fn depth(n: nat) -> nat
    decreases n,
{
    if n <= 1 {
        0
    } else {
        1 + depth(n / 2)
    }
}

/// The base-two logarithm rounded up, zero for zero.
pub open spec fn ceil_log2(n: nat) -> nat
    decreases n,
{
    if n <= 1 {
        0
    } else {
        1 + ceil_log2((n + 1) / 2)
    }
}

/// The largest of the heights, zero where there are none.
pub open spec fn tallest(heights: Seq<nat>) -> nat
    decreases heights.len(),
{
    if heights.len() == 0 {
        0
    } else {
        let rest = tallest(heights.drop_last());
        if heights.last() > rest {
            heights.last()
        } else {
            rest
        }
    }
}

/// The parts that belong to height `h`, joined in order.
pub open spec fn joined(parts: Seq<Seq<u32>>, heights: Seq<nat>, h: nat) -> Seq<u32>
    decreases parts.len(),
{
    if parts.len() == 0 {
        Seq::empty()
    } else {
        let front = joined(parts.drop_last(), heights, h);
        if heights[parts.len() - 1] == h {
            front + parts.last()
        } else {
            front
        }
    }
}

/// The heights of matrices given by their rows.
pub open spec fn heights(tables: Seq<Seq<Seq<u32>>>) -> Seq<nat> {
    Seq::new(tables.len(), |i: int| tables[i].len())
}

/// Row `r` of every matrix.
pub open spec fn rows_at(tables: Seq<Seq<Seq<u32>>>, r: int) -> Seq<Seq<u32>> {
    Seq::new(tables.len(), |i: int| tables[i][r])
}

/// The rows of the matrices of height `h`, joined row by row.
pub open spec fn level_rows(tables: Seq<Seq<Seq<u32>>>, h: nat) -> Seq<Seq<u32>> {
    Seq::new(h, |r: int| joined(rows_at(tables, r), heights(tables), h))
}

/// The layer made of a halved layer: the digests of the rows of its length, where there
/// are any, are compressed into it.
pub open spec fn injected(
    p: spec_fn(Seq<u32>) -> Seq<u32>,
    tables: Seq<Seq<Seq<u32>>>,
    half: Seq<Seq<u32>>,
) -> Seq<Seq<u32>> {
    if heights(tables).contains(half.len()) {
        paired(p, half, hashed(p, level_rows(tables, half.len())))
    } else {
        half
    }
}

/// Layer `l` of the tree, counted from the leaves.
pub open spec fn tree_layer(
    p: spec_fn(Seq<u32>) -> Seq<u32>,
    tables: Seq<Seq<Seq<u32>>>,
    l: nat,
) -> Seq<Seq<u32>>
    decreases l,
{
    if l == 0 {
        hashed(p, level_rows(tables, tallest(heights(tables))))
    } else {
        injected(p, tables, halved(p, tree_layer(p, tables, (l - 1) as nat)))
    }
}

/// All layers, from the leaves to the root.
pub open spec fn tree_layers(
    p: spec_fn(Seq<u32>) -> Seq<u32>,
    tables: Seq<Seq<Seq<u32>>>,
) -> Seq<Seq<Seq<u32>>> {
    Seq::new(depth(tallest(heights(tables))) + 1, |l: int| tree_layer(p, tables, l as nat))
}

/// The root of the tree.
pub open spec fn tree_root(
    p: spec_fn(Seq<u32>) -> Seq<u32>,
    tables: Seq<Seq<Seq<u32>>>,
) -> Seq<u32> {
    tree_layer(p, tables, depth(tallest(heights(tables))))[0]
}

/// There are matrices, and each has a power of two of rows.
pub open spec fn is_committable(tables: Seq<Seq<Seq<u32>>>) -> bool {
    &&& tables.len() > 0
    &&& forall|i: int| 0 <= i < tables.len() ==> is_power_of_two(#[trigger] tables[i].len())
}

/// No height exceeds the tallest, which is one of them.
pub proof fn lemma_tallest(hs: Seq<nat>)
    ensures
        forall|i: int| 0 <= i < hs.len() ==> #[trigger] hs[i] <= tallest(hs),
        hs.len() > 0 ==> hs.contains(tallest(hs)),
    decreases hs.len(),
{
    if hs.len() > 0 {
        let front = hs.drop_last();
        lemma_tallest(front);
        assert forall|i: int| 0 <= i < hs.len() implies #[trigger] hs[i] <= tallest(hs) by {
            if i < front.len() {
                assert(front[i] <= tallest(front));
            }
        }
        if hs.last() > tallest(front) || front.len() == 0 {
            assert(hs[hs.len() - 1] == tallest(hs));
        } else {
            let j = choose|j: int| 0 <= j < front.len() && front[j] == tallest(front);
            assert(hs[j] == tallest(hs));
        }
    }
}

/// A committable batch has a tallest matrix with at least one row.
pub proof fn lemma_top(ts: Seq<Seq<Seq<u32>>>)
    requires
        is_committable(ts),
    ensures
        is_power_of_two(tallest(heights(ts))),
        tallest(heights(ts)) >= 1,
{
    let hs = heights(ts);
    lemma_tallest(hs);
    let i = choose|i: int| 0 <= i < hs.len() && hs[i] == tallest(hs);
    assert(is_power_of_two(ts[i].len()));
}

/// Halving first or last comes to the same.
pub proof fn lemma_halvings_step(n: nat, k: nat)
    ensures
        halvings(n / 2, k) == halvings(n, k + 1),
    decreases k,
{
    reveal_with_fuel(halvings, 2);
    if k > 0 {
        lemma_halvings_step(n, (k - 1) as nat);
    }
}

/// Halving a number `depth` times leaves one.
pub proof fn lemma_depth(n: nat)
    requires
        n >= 1,
    ensures
        halvings(n, depth(n)) == 1,
        forall|l: nat| #![trigger halvings(n, l)] l < depth(n) ==> halvings(n, l) > 1,
    decreases n,
{
    if n > 1 {
        lemma_depth(n / 2);
        lemma_halvings_step(n, depth(n / 2));
        assert forall|l: nat| #![trigger halvings(n, l)] l < depth(n) implies halvings(n, l)
            > 1 by {
            if l > 0 {
                lemma_halvings_step(n, (l - 1) as nat);
                assert(halvings(n / 2, (l - 1) as nat) > 1);
            }
        }
    }
}

/// Layer `l` has as many nodes as the leaves halved `l` times.
pub proof fn lemma_layer_len(
    p: spec_fn(Seq<u32>) -> Seq<u32>,
    tables: Seq<Seq<Seq<u32>>>,
    l: nat,
)
    ensures
        tree_layer(p, tables, l).len() == halvings(tallest(heights(tables)), l),
    decreases l,
{
    if l > 0 {
        lemma_layer_len(p, tables, (l - 1) as nat);
    }
}

/// The layers of a stored tree as limbs.
pub open spec fn layer_limbs(layers: Seq<Vec<Digest>>) -> Seq<Seq<Seq<u32>>> {
    Seq::new(layers.len(), |l: int| digests(layers[l]@))
}

} // verus!
