//! Cuboids as the packer reasons about them: three edge lengths in ascending
//! order, with their volume and the test whether one fits into another.

use vstd::prelude::*;

verus! {

/// The smallest of three edge lengths.
pub open spec fn min3(a: int, b: int, c: int) -> int {
    if a <= b && a <= c {
        a
    } else if b <= c {
        b
    } else {
        c
    }
}

/// The largest of three edge lengths.
pub open spec fn max3(a: int, b: int, c: int) -> int {
    if a >= b && a >= c {
        a
    } else if b >= c {
        b
    } else {
        c
    }
}

/// The three edge lengths in ascending order.
pub open spec fn sort3(a: int, b: int, c: int) -> Seq<int> {
    seq![min3(a, b, c), a + b + c - min3(a, b, c) - max3(a, b, c), max3(a, b, c)]
}

/// Whether a sequence of edge lengths describes a cuboid: three lengths,
/// none negative, in ascending order.
pub open spec fn is_cuboid(s: Seq<int>) -> bool {
    s.len() == 3 && 0 <= s[0] <= s[1] <= s[2]
}

/// The volume of a cuboid: the product of its three edges.
pub open spec fn volume_of(s: Seq<int>) -> int {
    s[0] * s[1] * s[2]
}

/// Whether `item` can be turned so that it lies inside `container`. With the
/// edges of both in ascending order this is an edge-by-edge comparison.
pub open spec fn fits(container: Seq<int>, item: Seq<int>) -> bool {
    container[0] >= item[0] && container[1] >= item[1] && container[2] >= item[2]
}

/// The volume of a sequence of cuboids, taken together.
pub open spec fn total_volume(cuboids: Seq<Seq<int>>) -> int
    decreases cuboids.len(),
{
    if cuboids.len() == 0 {
        0
    } else {
        total_volume(cuboids.drop_last()) + volume_of(cuboids.last())
    }
}

/// Whether the edges `b1`, `b2`, `b3` are the edges `a1`, `a2`, `a3` in
/// some order.
pub open spec fn same_edges(a1: int, a2: int, a3: int, b1: int, b2: int, b3: int) -> bool {
    ||| (b1 == a1 && b2 == a2 && b3 == a3)
    ||| (b1 == a1 && b2 == a3 && b3 == a2)
    ||| (b1 == a2 && b2 == a1 && b3 == a3)
    ||| (b1 == a2 && b2 == a3 && b3 == a1)
    ||| (b1 == a3 && b2 == a1 && b3 == a2)
    ||| (b1 == a3 && b2 == a2 && b3 == a1)
}

/// Three edges in ascending order form a cuboid with the same edges, and so
/// with their product as its volume.
pub proof fn lemma_sort3(a: int, b: int, c: int)
    requires
        0 <= a,
        0 <= b,
        0 <= c,
    ensures
        is_cuboid(sort3(a, b, c)),
        same_edges(a, b, c, sort3(a, b, c)[0], sort3(a, b, c)[1], sort3(a, b, c)[2]),
        volume_of(sort3(a, b, c)) == a * b * c,
{
    let s = sort3(a, b, c);
    assert(s[0] * s[1] * s[2] == a * b * c) by (nonlinear_arith)
        requires
            same_edges(a, b, c, s[0], s[1], s[2]),
    ;
}

/// A block depends on its three edges only, not on the order in which they
/// are given.
pub proof fn lemma_edge_order_is_irrelevant(a1: int, a2: int, a3: int, b1: int, b2: int, b3: int)
    requires
        same_edges(a1, a2, a3, b1, b2, b3),
    ensures
        sort3(a1, a2, a3) == sort3(b1, b2, b3),
{
}

/// Whether one cuboid fits into another depends on the edges of each only,
/// not on the order in which they are given.
pub proof fn lemma_fit_ignores_edge_order(
    container: (int, int, int),
    turned_container: (int, int, int),
    item: (int, int, int),
    turned_item: (int, int, int),
)
    requires
        same_edges(
            container.0,
            container.1,
            container.2,
            turned_container.0,
            turned_container.1,
            turned_container.2,
        ),
        same_edges(item.0, item.1, item.2, turned_item.0, turned_item.1, turned_item.2),
    ensures
        fits(
            sort3(turned_container.0, turned_container.1, turned_container.2),
            sort3(turned_item.0, turned_item.1, turned_item.2),
        ) == fits(
            sort3(container.0, container.1, container.2),
            sort3(item.0, item.1, item.2),
        ),
{
    lemma_edge_order_is_irrelevant(
        container.0,
        container.1,
        container.2,
        turned_container.0,
        turned_container.1,
        turned_container.2,
    );
    lemma_edge_order_is_irrelevant(
        item.0,
        item.1,
        item.2,
        turned_item.0,
        turned_item.1,
        turned_item.2,
    );
}

/// Comparing the sorted edges one by one is exact: the item fits that way
/// if and only if some way of turning it puts each of its edges along a side
/// of the container that is at least as long.
pub proof fn lemma_fits_is_some_orientation(container: (int, int, int), item: (int, int, int))
    ensures
        fits(
            sort3(container.0, container.1, container.2),
            sort3(item.0, item.1, item.2),
        ) <==> exists|e1: int, e2: int, e3: int|
            #![trigger same_edges(item.0, item.1, item.2, e1, e2, e3)]
            same_edges(item.0, item.1, item.2, e1, e2, e3) && container.0 >= e1 && container.1
                >= e2 && container.2 >= e3,
{
    let c = sort3(container.0, container.1, container.2);
    let i = sort3(item.0, item.1, item.2);
    if fits(c, i) {
        // Lay the item's shortest edge along the container's shortest side,
        // and so on.
        let e1 = if container.0 == c[0] {
            i[0]
        } else if container.0 == c[2] {
            i[2]
        } else {
            i[1]
        };
        let e3 = if container.2 == c[2] && container.0 != c[2] {
            i[2]
        } else if container.2 == c[0] && container.0 != c[0] {
            i[0]
        } else if container.0 == c[0] && container.1 == c[2] {
            i[1]
        } else if container.0 == c[2] && container.1 == c[0] {
            i[1]
        } else if container.0 == c[0] {
            i[2]
        } else if container.0 == c[2] {
            i[0]
        } else if container.1 == c[0] {
            i[2]
        } else {
            i[0]
        };
        let e2 = i[0] + i[1] + i[2] - e1 - e3;
        assert(same_edges(item.0, item.1, item.2, e1, e2, e3) && container.0 >= e1 && container.1
            >= e2 && container.2 >= e3);
    }
}

/// The volume of two sequences of cuboids, one behind the other, is the sum
/// of their volumes.
pub proof fn lemma_total_volume_add(front: Seq<Seq<int>>, back: Seq<Seq<int>>)
    ensures
        total_volume(front + back) == total_volume(front) + total_volume(back),
    decreases back.len(),
{
    if back.len() == 0 {
        assert(front + back =~= front);
    } else {
        lemma_total_volume_add(front, back.drop_last());
        assert((front + back).drop_last() =~= front + back.drop_last());
    }
}

/// Taking one cuboid out of a sequence lowers the total volume by the
/// volume of that cuboid.
pub proof fn lemma_total_volume_remove(cuboids: Seq<Seq<int>>, k: int)
    requires
        0 <= k < cuboids.len(),
    ensures
        total_volume(cuboids.remove(k)) == total_volume(cuboids) - volume_of(cuboids[k]),
    decreases cuboids.len(),
{
    if k == cuboids.len() - 1 {
        assert(cuboids.remove(k) =~= cuboids.drop_last());
    } else {
        lemma_total_volume_remove(cuboids.drop_last(), k);
        assert(cuboids.remove(k).drop_last() =~= cuboids.drop_last().remove(k));
    }
}

} // verus!
