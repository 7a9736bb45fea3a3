//! Union-find over `0..n` with union by rank and path halving, used to
//! merge zone centroids into connected components.
use vstd::prelude::*;

verus! {

/// Number of roots (`parent[i] == i`) among the first `k` elements.
pub open spec fn count_roots(parent: Seq<usize>, k: int) -> nat
    decreases k,
{
    if k <= 0 {
        0
    } else {
        count_roots(parent, k - 1) + if parent[k - 1] == k - 1 {
            1nat
        } else {
            0nat
        }
    }
}

/// A well-formed union-find forest: parents are in range, ranks grow
/// strictly from a non-root to its parent, and every rank plus the
/// number of roots is at most the number of elements.
#[verifier::opaque]
pub open spec fn uf_wf(parent: Seq<usize>, rank: Seq<usize>) -> bool {
    &&& parent.len() == rank.len()
    &&& forall|x: int| 0 <= x < parent.len() ==> (#[trigger] parent[x] as int) < parent.len()
    &&& forall|x: int|
        0 <= x < parent.len() && parent[x] != x ==> #[trigger] rank[x] < rank[parent[x] as int]
    &&& forall|x: int|
        0 <= x < parent.len() ==> #[trigger] rank[x] + count_roots(parent, parent.len() as int)
            <= parent.len()
}

/// The root of the tree that holds `x`.
#[verifier::opaque]
pub open spec fn uf_root(parent: Seq<usize>, rank: Seq<usize>, x: int) -> int
    decreases parent.len() - rank[x],
    when uf_wf(parent, rank) && 0 <= x < parent.len()
{
    proof {
        reveal(uf_wf);
    }
    if parent[x] == x {
        x
    } else {
        uf_root(parent, rank, parent[x] as int)
    }
}

/// Every element of `0..p0.len()` has the same root in both forests.
#[verifier::opaque]
pub open spec fn same_roots(p0: Seq<usize>, p1: Seq<usize>, rank: Seq<usize>) -> bool {
    forall|y: int| 0 <= y < p0.len() ==> #[trigger] uf_root(p1, rank, y) == uf_root(p0, rank, y)
}

/// The forest `(p3, r3)` is `(p0, r0)` with the sets of `x` and `y`
/// merged: their elements now share the root of `x`, and every other
/// element keeps its root.
#[verifier::opaque]
pub open spec fn merged_roots(
    p0: Seq<usize>,
    r0: Seq<usize>,
    p3: Seq<usize>,
    r3: Seq<usize>,
    x: int,
    y: int,
) -> bool {
    &&& uf_root(p3, r3, x) == uf_root(p3, r3, y)
    &&& (uf_root(p3, r3, x) == uf_root(p0, r0, x) || uf_root(p3, r3, x) == uf_root(p0, r0, y))
    &&& forall|z: int|
        0 <= z < p0.len() ==> #[trigger] uf_root(p3, r3, z) == if uf_root(p0, r0, z) == uf_root(
            p0,
            r0,
            x,
        ) || uf_root(p0, r0, z) == uf_root(p0, r0, y) {
            uf_root(p3, r3, x)
        } else {
            uf_root(p0, r0, z)
        }
}

/// In `(p2, r2)` every element of the tree of root `a` of `(p1, r1)` has
/// root `b`, and every other element keeps its root.
#[verifier::opaque]
pub open spec fn relinked_roots(
    p1: Seq<usize>,
    r1: Seq<usize>,
    p2: Seq<usize>,
    r2: Seq<usize>,
    a: int,
    b: int,
) -> bool {
    forall|z: int|
        0 <= z < p1.len() ==> #[trigger] uf_root(p2, r2, z) == if uf_root(p1, r1, z) == a {
            b
        } else {
            uf_root(p1, r1, z)
        }
}

/// The root of `x` lies in range and is its own parent, and a non-root
/// has the root of its parent.
pub proof fn lemma_root_is_root(parent: Seq<usize>, rank: Seq<usize>, x: int)
    requires
        uf_wf(parent, rank),
        0 <= x < parent.len(),
    ensures
        0 <= uf_root(parent, rank, x) < parent.len(),
        parent[uf_root(parent, rank, x)] == uf_root(parent, rank, x),
        parent[x] != x ==> uf_root(parent, rank, x) == uf_root(parent, rank, parent[x] as int),
        parent[x] == x ==> uf_root(parent, rank, x) == x,
    decreases parent.len() - rank[x],
{
    reveal(uf_wf);
    reveal(uf_root);
    if parent[x] != x {
        lemma_root_is_root(parent, rank, parent[x] as int);
    }
}

proof fn lemma_count_roots_same(p1: Seq<usize>, p2: Seq<usize>, k: int)
    requires
        0 <= k <= p1.len(),
        k <= p2.len(),
        forall|i: int| 0 <= i < k ==> (p1[i] == i <==> p2[i] == i),
    ensures
        count_roots(p1, k) == count_roots(p2, k),
    decreases k,
{
    if k > 0 {
        lemma_count_roots_same(p1, p2, k - 1);
    }
}

proof fn lemma_count_roots_lost_one(p1: Seq<usize>, p2: Seq<usize>, r: int, k: int)
    requires
        0 <= k <= p1.len(),
        k <= p2.len(),
        p1[r] == r,
        p2[r] != r,
        forall|i: int| 0 <= i < k && i != r ==> (p1[i] == i <==> p2[i] == i),
    ensures
        count_roots(p2, k) + (if 0 <= r < k {
            1nat
        } else {
            0nat
        }) == count_roots(p1, k),
    decreases k,
{
    if k > 0 {
        lemma_count_roots_lost_one(p1, p2, r, k - 1);
    }
}

proof fn lemma_count_roots_positive(parent: Seq<usize>, r: int, k: int)
    requires
        0 <= r < k <= parent.len(),
        parent[r] == r,
    ensures
        count_roots(parent, k) >= 1,
    decreases k,
{
    if r < k - 1 {
        lemma_count_roots_positive(parent, r, k - 1);
    }
}

/// Halving the path at `x` keeps the forest well formed and every root.
proof fn lemma_halve(parent: Seq<usize>, rank: Seq<usize>, x: int)
    requires
        uf_wf(parent, rank),
        0 <= x < parent.len(),
        parent[x] != x,
    ensures
        uf_wf(parent.update(x, parent[parent[x] as int]), rank),
        forall|y: int|
            0 <= y < parent.len() ==> #[trigger] uf_root(parent.update(x, parent[parent[x] as int]), rank, y)
                == uf_root(parent, rank, y),
{
    reveal(uf_wf);
    let g = parent[parent[x] as int];
    let p2 = parent.update(x, g);
    assert(g != x) by {
        let p = parent[x] as int;
        if parent[p] != p {
            assert(rank[p] < rank[parent[p] as int]);
        }
    }
    lemma_count_roots_same(parent, p2, parent.len() as int);
    assert(uf_wf(p2, rank)) by {
        assert forall|y: int| 0 <= y < p2.len() && p2[y] != y implies #[trigger] rank[y] < rank[p2[y] as int] by {
            if y == x {
                let p = parent[x] as int;
                if parent[p] != p {
                    assert(rank[p] < rank[parent[p] as int]);
                }
            }
        }
    }
    assert forall|y: int| 0 <= y < parent.len() implies #[trigger] uf_root(p2, rank, y) == uf_root(parent, rank, y) by {
        lemma_halve_root(parent, rank, x, y);
    }
}

proof fn lemma_halve_root(parent: Seq<usize>, rank: Seq<usize>, x: int, y: int)
    requires
        uf_wf(parent, rank),
        uf_wf(parent.update(x, parent[parent[x] as int]), rank),
        0 <= x < parent.len(),
        parent[x] != x,
        0 <= y < parent.len(),
    ensures
        uf_root(parent.update(x, parent[parent[x] as int]), rank, y) == uf_root(parent, rank, y),
    decreases parent.len() - rank[y],
{
    reveal(uf_wf);
    reveal(uf_root);
    let p2 = parent.update(x, parent[parent[x] as int]);
    if parent[y] != y {
        lemma_halve_root(parent, rank, x, parent[y] as int);
        if y == x {
            let p = parent[x] as int;
            if parent[p] != p {
                lemma_halve_root(parent, rank, x, parent[p] as int);
                lemma_root_is_root(parent, rank, p);
            }
            lemma_root_is_root(parent, rank, x);
        }
    }
}

/// Find the root of `x`, halving the path on the way.
pub fn uf_find(parent: &mut Vec<usize>, x: usize, Ghost(rank): Ghost<Seq<usize>>) -> (r: usize)
    requires
        uf_wf(old(parent)@, rank),
        x < old(parent)@.len(),
    ensures
        r == uf_root(old(parent)@, rank, x as int),
        uf_wf(final(parent)@, rank),
        final(parent)@.len() == old(parent)@.len(),
        same_roots(old(parent)@, final(parent)@, rank),
{
    proof {
        reveal(uf_wf);
    }
    let ghost orig = parent@;
    let ghost x0 = x as int;
    let mut x = x;
    while parent[x] != x
        invariant
            uf_wf(parent@, rank),
            parent@.len() == orig.len(),
            x < parent@.len(),
            uf_root(parent@, rank, x as int) == uf_root(orig, rank, x0),
            forall|y: int|
                0 <= y < orig.len() ==> #[trigger] uf_root(parent@, rank, y) == uf_root(orig, rank, y),
        decreases parent@.len() - rank[x as int],
    {
        let ghost before = parent@;
        proof {
            reveal(uf_wf);
        }
        let p = parent[x];
        let g = parent[p];
        parent.set(x, g);
        proof {
            lemma_halve(before, rank, x as int);
            assert(parent@ == before.update(x as int, before[before[x as int] as int]));
            lemma_root_is_root(before, rank, x as int);
            if before[p as int] != p {
                lemma_root_is_root(before, rank, p as int);
                assert(rank[p as int] < rank[g as int]);
            }
            lemma_root_is_root(parent@, rank, x as int);
        }
        x = g;
    }
    proof {
        lemma_root_is_root(parent@, rank, x as int);
        reveal(same_roots);
    }
    x
}

/// Hanging root `a` under root `b` keeps the forest well formed and
/// sends every element of `a`'s tree to `b`.
proof fn lemma_link(parent: Seq<usize>, rank: Seq<usize>, rank2: Seq<usize>, a: int, b: int)
    requires
        uf_wf(parent, rank),
        0 <= a < parent.len(),
        0 <= b < parent.len(),
        a != b,
        parent[a] == a,
        parent[b] == b,
        rank2.len() == rank.len(),
        forall|w: int| 0 <= w < rank.len() && w != b ==> rank2[w] == rank[w],
        rank[b] <= rank2[b] <= rank[b] + 1,
        rank[a] < rank2[b],
    ensures
        uf_wf(parent.update(a, b as usize), rank2),
        relinked_roots(parent, rank, parent.update(a, b as usize), rank2, a, b),
{
    reveal(uf_wf);
    reveal(relinked_roots);
    let p2 = parent.update(a, b as usize);
    lemma_count_roots_lost_one(parent, p2, a, parent.len() as int);
    assert(uf_wf(p2, rank2)) by {
        assert forall|z: int| 0 <= z < p2.len() && p2[z] != z implies #[trigger] rank2[z] < rank2[p2[z] as int] by {
            if z != a {
                assert(rank[z] < rank[parent[z] as int]);
                assert(z != b);
                assert(rank2[z] == rank[z]);
                assert(rank2[parent[z] as int] >= rank[parent[z] as int]);
            } else {
                assert(rank2[a] == rank[a]);
            }
        }
        assert forall|z: int| 0 <= z < p2.len() implies #[trigger] rank2[z] + count_roots(p2, p2.len() as int) <= p2.len() by {
            assert(rank[z] + count_roots(parent, parent.len() as int) <= parent.len());
            assert(rank[b] + count_roots(parent, parent.len() as int) <= parent.len());
        }
    }
    assert forall|z: int| 0 <= z < parent.len() implies #[trigger] uf_root(p2, rank2, z) == if uf_root(parent, rank, z) == a {
        b
    } else {
        uf_root(parent, rank, z)
    } by {
        lemma_link_root(parent, rank, rank2, a, b, z);
    }
}

proof fn lemma_link_root(parent: Seq<usize>, rank: Seq<usize>, rank2: Seq<usize>, a: int, b: int, z: int)
    requires
        uf_wf(parent, rank),
        uf_wf(parent.update(a, b as usize), rank2),
        0 <= a < parent.len(),
        0 <= b < parent.len(),
        a != b,
        parent[a] == a,
        parent[b] == b,
        0 <= z < parent.len(),
    ensures
        uf_root(parent.update(a, b as usize), rank2, z) == if uf_root(parent, rank, z) == a {
            b
        } else {
            uf_root(parent, rank, z)
        },
    decreases parent.len() - rank[z],
{
    reveal(uf_wf);
    reveal(uf_root);
    let p2 = parent.update(a, b as usize);
    if parent[z] != z {
        lemma_link_root(parent, rank, rank2, a, b, parent[z] as int);
    } else if z == a {
        assert(uf_root(p2, rank2, b) == b);
    }
}

/// How union by rank treats the roots `rx` of `x` and `ry` of `y` in
/// `(p0, r0)`: when they are equal, no rank changes and every element
/// keeps its root; otherwise the root of lower rank goes under the other,
/// and on equal ranks `ry` goes under `rx`, whose rank grows by one.
#[verifier::opaque]
pub open spec fn union_by_rank(
    p0: Seq<usize>,
    r0: Seq<usize>,
    p3: Seq<usize>,
    r3: Seq<usize>,
    x: int,
    y: int,
) -> bool {
    let rx = uf_root(p0, r0, x);
    let ry = uf_root(p0, r0, y);
    if rx == ry {
        r3 == r0 && same_roots(p0, p3, r0)
    } else if r0[rx] < r0[ry] {
        r3 == r0 && uf_root(p3, r3, x) == ry
    } else if r0[rx] > r0[ry] {
        r3 == r0 && uf_root(p3, r3, x) == rx
    } else {
        r3 == r0.update(rx, (r0[rx] + 1) as usize) && uf_root(p3, r3, x) == rx
    }
}

/// Merge the sets that hold `x` and `y`, by rank.
///
/// `uf_wf` holds of the singletons (`lemma_singletons`) and every union
/// keeps it, so it holds of every forest built by this function; its
/// rank condition bounds the walk to a root and keeps each rank below
/// the number of elements, so the increment cannot overflow.
pub fn uf_union(parent: &mut Vec<usize>, rank: &mut Vec<usize>, x: usize, y: usize)
    requires
        uf_wf(old(parent)@, old(rank)@),
        x < old(parent)@.len(),
        y < old(parent)@.len(),
    ensures
        uf_wf(final(parent)@, final(rank)@),
        final(parent)@.len() == old(parent)@.len(),
        merged_roots(old(parent)@, old(rank)@, final(parent)@, final(rank)@, x as int, y as int),
        union_by_rank(old(parent)@, old(rank)@, final(parent)@, final(rank)@, x as int, y as int),
{
    proof {
        reveal(uf_wf);
    }
    let ghost p0 = parent@;
    let ghost r0 = rank@;
    let rx = uf_find(parent, x, Ghost(rank@));
    let ghost pm = parent@;
    let ry = uf_find(parent, y, Ghost(rank@));
    let ghost p1 = parent@;
    proof {
        assert(uf_root(pm, r0, y as int) == uf_root(p0, r0, y as int)) by {
            reveal(same_roots);
        }
        lemma_same_roots_trans(p0, pm, p1, r0);
        lemma_union_setup(p0, r0, p1, x as int, y as int);
    }
    proof {
        assert(rx == uf_root(p0, r0, x as int));
        assert(ry == uf_root(p0, r0, y as int));
    }
    if rx == ry {
        proof {
            lemma_union_by_rank_same(p0, r0, parent@, x as int, y as int);
        }
        return;
    }
    proof {
        lemma_count_roots_positive(p1, rx as int, p1.len() as int);
    }
    let link_rank_up = rank[rx] == rank[ry];
    let (child, new_root) = if rank[rx] < rank[ry] {
        (rx, ry)
    } else {
        (ry, rx)
    };
    parent.set(child, new_root);
    if link_rank_up {
        let n = rank.len();
        proof {
            reveal(uf_wf);
            assert(r0[rx as int] + count_roots(p1, p1.len() as int) <= p1.len());
            assert(rank@[rx as int] == r0[rx as int]);
            assert(p1.len() == parent@.len());
            assert(r0.len() == n);
        }
        let bumped = rank[rx] + 1;
        rank.set(rx, bumped);
    }
    proof {
        lemma_link(p1, r0, rank@, child as int, new_root as int);
        lemma_union_post(p0, r0, p1, parent@, rank@, x as int, y as int, child as int, new_root as int);
        lemma_union_by_rank_linked(p0, r0, parent@, rank@, x as int, y as int, new_root as int);
    }
}

proof fn lemma_union_by_rank_same(p0: Seq<usize>, r0: Seq<usize>, p1: Seq<usize>, x: int, y: int)
    requires
        uf_root(p0, r0, x) == uf_root(p0, r0, y),
        same_roots(p0, p1, r0),
    ensures
        union_by_rank(p0, r0, p1, r0, x, y),
{
    reveal(union_by_rank);
}

proof fn lemma_union_by_rank_linked(
    p0: Seq<usize>,
    r0: Seq<usize>,
    p3: Seq<usize>,
    r3: Seq<usize>,
    x: int,
    y: int,
    new_root: int,
)
    requires
        uf_root(p0, r0, x) != uf_root(p0, r0, y),
        uf_root(p3, r3, x) == new_root,
        r0[uf_root(p0, r0, x)] < r0[uf_root(p0, r0, y)] ==> new_root == uf_root(p0, r0, y),
        r0[uf_root(p0, r0, x)] >= r0[uf_root(p0, r0, y)] ==> new_root == uf_root(p0, r0, x),
        r0[uf_root(p0, r0, x)] != r0[uf_root(p0, r0, y)] ==> r3 == r0,
        r0[uf_root(p0, r0, x)] == r0[uf_root(p0, r0, y)] ==> r3 == r0.update(
            uf_root(p0, r0, x),
            (r0[uf_root(p0, r0, x)] + 1) as usize,
        ),
    ensures
        union_by_rank(p0, r0, p3, r3, x, y),
{
    reveal(union_by_rank);
}

/// Having the same roots is transitive.
pub proof fn lemma_same_roots_trans(p0: Seq<usize>, p1: Seq<usize>, p2: Seq<usize>, rank: Seq<usize>)
    requires
        same_roots(p0, p1, rank),
        same_roots(p1, p2, rank),
        p1.len() == p0.len(),
    ensures
        same_roots(p0, p2, rank),
{
    reveal(same_roots);
}

proof fn lemma_union_setup(p0: Seq<usize>, r0: Seq<usize>, p1: Seq<usize>, x: int, y: int)
    requires
        uf_wf(p0, r0),
        uf_wf(p1, r0),
        p1.len() == p0.len(),
        0 <= x < p0.len(),
        0 <= y < p0.len(),
        same_roots(p0, p1, r0),
    ensures
        0 <= uf_root(p0, r0, x) < p0.len(),
        0 <= uf_root(p0, r0, y) < p0.len(),
        p1[uf_root(p0, r0, x)] == uf_root(p0, r0, x),
        p1[uf_root(p0, r0, y)] == uf_root(p0, r0, y),
        uf_root(p0, r0, x) == uf_root(p0, r0, y) ==> merged_roots(p0, r0, p1, r0, x, y),
{
    reveal(uf_wf);
    reveal(same_roots);
    reveal(merged_roots);
    let rx = uf_root(p0, r0, x);
    let ry = uf_root(p0, r0, y);
    lemma_root_is_root(p0, r0, x);
    lemma_root_is_root(p0, r0, y);
    lemma_root_is_root(p0, r0, rx);
    lemma_root_is_root(p0, r0, ry);
    lemma_root_is_root(p1, r0, rx);
    lemma_root_is_root(p1, r0, ry);
}

proof fn lemma_union_post(
    p0: Seq<usize>,
    r0: Seq<usize>,
    p1: Seq<usize>,
    p3: Seq<usize>,
    r3: Seq<usize>,
    x: int,
    y: int,
    child: int,
    new_root: int,
)
    requires
        uf_wf(p0, r0),
        uf_wf(p1, r0),
        uf_wf(p3, r3),
        p1.len() == p0.len(),
        p3.len() == p0.len(),
        0 <= x < p0.len(),
        0 <= y < p0.len(),
        same_roots(p0, p1, r0),
        (child == uf_root(p0, r0, x) && new_root == uf_root(p0, r0, y)) || (child == uf_root(p0, r0, y)
            && new_root == uf_root(p0, r0, x)),
        relinked_roots(p1, r0, p3, r3, child, new_root),
    ensures
        merged_roots(p0, r0, p3, r3, x, y),
        uf_root(p3, r3, x) == new_root,
{
    reveal(uf_wf);
    reveal(same_roots);
    reveal(merged_roots);
    reveal(relinked_roots);
    assert(uf_root(p3, r3, x) == new_root);
    assert(uf_root(p3, r3, y) == new_root);
}

/// The forest in which every element is its own root.
pub open spec fn singletons(n: int) -> Seq<usize> {
    Seq::new(n as nat, |i: int| i as usize)
}

/// Rank 0 for each of `n` elements.
pub open spec fn zero_ranks(n: int) -> Seq<usize> {
    Seq::new(n as nat, |i: int| 0usize)
}

proof fn lemma_count_roots_all(parent: Seq<usize>, k: int)
    requires
        0 <= k <= parent.len(),
        forall|i: int| 0 <= i < parent.len() ==> parent[i] == i,
    ensures
        count_roots(parent, k) == k,
    decreases k,
{
    if k > 0 {
        lemma_count_roots_all(parent, k - 1);
    }
}

/// Every element is its own root in the forest of singletons with rank 0.
pub proof fn lemma_singletons(n: int)
    requires
        0 <= n <= usize::MAX,
    ensures
        uf_wf(singletons(n), zero_ranks(n)),
        forall|z: int| 0 <= z < n ==> #[trigger] uf_root(singletons(n), zero_ranks(n), z) == z,
{
    reveal(uf_wf);
    reveal(uf_root);
    lemma_count_roots_all(singletons(n), n);
}

} // verus!
