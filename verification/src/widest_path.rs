//! Widest paths in a complete directed graph given by a square matrix of
//! edge weights.
//!
//! The width of a path is the smallest weight among its edges. The widest
//! width from one node to another is the largest width that any path between
//! them has. A node reaches itself by the path that has no edge, whose width
//! is the largest value an `i32` holds.

use vstd::prelude::*;
use vstd::math::{max, min};

verus! {

/// Every row of `w` is as long as `w` itself.
pub open spec fn is_square(w: Seq<Seq<i32>>) -> bool {
    forall|i: int| 0 <= i < w.len() ==> (#[trigger] w[i]).len() == w.len()
}

/// `p` names at least one node, and each of its nodes is below `n`. A path
/// may pass through a node more than once.
pub open spec fn is_path(n: nat, p: Seq<int>) -> bool {
    &&& p.len() > 0
    &&& forall|k: int| 0 <= k < p.len() ==> 0 <= #[trigger] p[k] < n
}

/// `p` is a path among `n` nodes that starts at `from` and ends at `to`.
pub open spec fn is_path_between(n: nat, p: Seq<int>, from: int, to: int) -> bool {
    &&& is_path(n, p)
    &&& p.first() == from
    &&& p.last() == to
}

/// The smallest weight among the edges `p[0] -> p[1] -> ...` of `p`; for a
/// path without an edge, the largest `i32`.
pub open spec fn path_width(w: Seq<Seq<i32>>, p: Seq<int>) -> int
    decreases p.len(),
{
    if p.len() <= 1 {
        i32::MAX as int
    } else {
        min(w[p[0]][p[1]] as int, path_width(w, p.drop_first()))
    }
}

/// `x` is the width of some path from `from` to `to`, and no path from
/// `from` to `to` is wider.
pub open spec fn is_widest_width(w: Seq<Seq<i32>>, from: int, to: int, x: int) -> bool {
    &&& exists|p: Seq<int>| #[trigger]
        is_path_between(w.len(), p, from, to) && path_width(w, p) == x
    &&& forall|p: Seq<int>| #[trigger]
        is_path_between(w.len(), p, from, to) ==> path_width(w, p) <= x
}

/// The widest width from `from` to `to` in `w`.
pub open spec fn widest_width(w: Seq<Seq<i32>>, from: int, to: int) -> int {
    choose|x: int| is_widest_width(w, from, to, x)
}

/// `r` holds, for each pair of nodes of `w`, the widest width between them.
pub open spec fn is_widest_matrix(w: Seq<Seq<i32>>, r: Seq<Seq<i32>>) -> bool {
    &&& r.len() == w.len()
    &&& is_square(r)
    &&& forall|i: int, j: int|
        0 <= i < w.len() && 0 <= j < w.len() ==> is_widest_width(w, i, j, #[trigger] r[i][j] as int)
}

/// The matrix of the widest widths between the nodes of `w`.
pub open spec fn widest_matrix(w: Seq<Seq<i32>>) -> Seq<Seq<i32>> {
    Seq::new(w.len(), |i: int| Seq::new(w.len(), |j: int| widest_width(w, i, j) as i32))
}

/// The widest width from `i` to `j` among the paths whose inner nodes are
/// all below `k`. With `k == 0` that is the edge itself, or, from a node to
/// itself, the path without an edge.
pub open spec fn widest_via(w: Seq<Seq<i32>>, k: nat, i: int, j: int) -> int
    decreases k,
{
    if k == 0 {
        if i == j {
            i32::MAX as int
        } else {
            w[i][j] as int
        }
    } else {
        let pivot = k - 1;
        max(
            widest_via(w, pivot as nat, i, j),
            min(widest_via(w, pivot as nat, i, pivot), widest_via(w, pivot as nat, pivot, j)),
        )
    }
}

/// No path is wider than the largest `i32`.
pub proof fn lemma_path_width_bounded(w: Seq<Seq<i32>>, p: Seq<int>)
    ensures
        path_width(w, p) <= i32::MAX,
    decreases p.len(),
{
    if p.len() > 1 {
        lemma_path_width_bounded(w, p.drop_first());
    }
}

/// Joining a path that ends where another begins gives a path as wide as
/// the narrower of the two.
pub proof fn lemma_path_width_join(w: Seq<Seq<i32>>, p: Seq<int>, q: Seq<int>)
    requires
        p.len() > 0,
        q.len() > 0,
        p.last() == q.first(),
    ensures
        path_width(w, p + q.drop_first()) == min(path_width(w, p), path_width(w, q)),
    decreases p.len(),
{
    let joined = p + q.drop_first();
    lemma_path_width_bounded(w, q);
    if p.len() == 1 {
        assert(joined =~= q);
    } else {
        assert(joined.drop_first() =~= p.drop_first() + q.drop_first());
        assert(joined[0] == p[0] && joined[1] == p[1]);
        lemma_path_width_join(w, p.drop_first(), q);
    }
}

/// `widest_via` is a value that an `i32` holds.
proof fn lemma_via_in_range(w: Seq<Seq<i32>>, k: nat, i: int, j: int)
    ensures
        i32::MIN <= widest_via(w, k, i, j) <= i32::MAX,
    decreases k,
{
    if k > 0 {
        let pivot = (k - 1) as nat;
        lemma_via_in_range(w, pivot, i, j);
        lemma_via_in_range(w, pivot, i, pivot as int);
        lemma_via_in_range(w, pivot, pivot as int, j);
    }
}

/// Allowing more inner nodes never narrows the widest width.
proof fn lemma_via_grows(w: Seq<Seq<i32>>, k: nat, l: nat, i: int, j: int)
    requires
        k <= l,
    ensures
        widest_via(w, k, i, j) <= widest_via(w, l, i, j),
    decreases l,
{
    if k < l {
        lemma_via_grows(w, k, (l - 1) as nat, i, j);
    }
}

/// A node reaches itself with the largest width, whatever the inner nodes.
proof fn lemma_via_diagonal(w: Seq<Seq<i32>>, k: nat, i: int)
    ensures
        widest_via(w, k, i, i) == i32::MAX,
{
    lemma_via_grows(w, 0, k, i, i);
    lemma_via_in_range(w, k, i, i);
}

/// Allowing node `k` as an inner node changes nothing for the paths that
/// start or end at `k`.
pub proof fn lemma_via_pivot_fixed(w: Seq<Seq<i32>>, k: nat, i: int)
    ensures
        widest_via(w, k + 1, i, k as int) == widest_via(w, k, i, k as int),
        widest_via(w, k + 1, k as int, i) == widest_via(w, k, k as int, i),
{
}

/// Going through an allowed inner node `m` is never wider than the widest
/// width itself.
proof fn lemma_via_closed(w: Seq<Seq<i32>>, k: nat, i: int, j: int, m: int)
    requires
        0 <= m < k,
    ensures
        widest_via(w, k, i, j) >= min(widest_via(w, k, i, m), widest_via(w, k, m, j)),
    decreases k,
{
    let pivot = (k - 1) as nat;
    if m == pivot {
        lemma_via_pivot_fixed(w, pivot, i);
        lemma_via_pivot_fixed(w, pivot, j);
    } else {
        lemma_via_closed(w, pivot, i, j, m);
        lemma_via_closed(w, pivot, pivot as int, j, m);
        lemma_via_closed(w, pivot, i, pivot as int, m);
    }
}

/// Some path from `i` to `j` is exactly as wide as `widest_via(w, k, i, j)`.
proof fn lemma_via_attained(w: Seq<Seq<i32>>, k: nat, i: int, j: int) -> (p: Seq<int>)
    requires
        k <= w.len(),
        0 <= i < w.len(),
        0 <= j < w.len(),
    ensures
        is_path_between(w.len(), p, i, j),
        path_width(w, p) == widest_via(w, k, i, j),
    decreases k,
{
    if k == 0 {
        if i == j {
            seq![i]
        } else {
            let p = seq![i, j];
            assert(p.drop_first() =~= seq![j]);
            assert(path_width(w, p.drop_first()) == i32::MAX);
            p
        }
    } else {
        let pivot = (k - 1) as nat;
        if widest_via(w, k, i, j) == widest_via(w, pivot, i, j) {
            lemma_via_attained(w, pivot, i, j)
        } else {
            let head = lemma_via_attained(w, pivot, i, pivot as int);
            let tail = lemma_via_attained(w, pivot, pivot as int, j);
            lemma_path_width_join(w, head, tail);
            head + tail.drop_first()
        }
    }
}

/// No path among the nodes of `w` is wider than `widest_via` with every
/// node allowed as an inner node.
proof fn lemma_via_dominates(w: Seq<Seq<i32>>, p: Seq<int>)
    requires
        is_path(w.len(), p),
    ensures
        path_width(w, p) <= widest_via(w, w.len(), p.first(), p.last()),
    decreases p.len(),
{
    let n = w.len();
    if p.len() == 1 {
        lemma_via_diagonal(w, n, p[0]);
    } else {
        let rest = p.drop_first();
        assert(rest.first() == p[1] && rest.last() == p.last());
        lemma_via_dominates(w, rest);
        lemma_via_grows(w, 0, n, p[0], p[1]);
        lemma_via_closed(w, n, p[0], p.last(), p[1]);
    }
}

/// With every node allowed as an inner node, `widest_via` is the widest
/// width.
pub proof fn lemma_via_is_widest(w: Seq<Seq<i32>>, i: int, j: int)
    requires
        0 <= i < w.len(),
        0 <= j < w.len(),
    ensures
        is_widest_width(w, i, j, widest_via(w, w.len(), i, j)),
        widest_width(w, i, j) == widest_via(w, w.len(), i, j),
{
    let x = widest_via(w, w.len(), i, j);
    let witness = lemma_via_attained(w, w.len(), i, j);
    assert(is_path_between(w.len(), witness, i, j) && path_width(w, witness) == x);
    assert forall|p: Seq<int>| #[trigger] is_path_between(w.len(), p, i, j) implies path_width(
        w,
        p,
    ) <= x by {
        lemma_via_dominates(w, p);
    }
    assert(is_widest_width(w, i, j, x));
    assert(is_widest_width(w, i, j, widest_width(w, i, j)));
    lemma_widest_width_unique(w, i, j, x, widest_width(w, i, j));
}

/// Two nodes have one widest width.
pub proof fn lemma_widest_width_unique(w: Seq<Seq<i32>>, from: int, to: int, x: int, y: int)
    requires
        is_widest_width(w, from, to, x),
        is_widest_width(w, from, to, y),
    ensures
        x == y,
{
}

/// From a node to itself the widest width is the largest `i32`.
pub proof fn lemma_widest_width_diagonal(w: Seq<Seq<i32>>, i: int)
    requires
        0 <= i < w.len(),
    ensures
        widest_width(w, i, i) == i32::MAX,
{
    lemma_via_is_widest(w, i, i);
    lemma_via_diagonal(w, w.len(), i);
}

/// A widest width is a value that an `i32` holds.
pub proof fn lemma_widest_width_in_range(w: Seq<Seq<i32>>, i: int, j: int)
    requires
        0 <= i < w.len(),
        0 <= j < w.len(),
    ensures
        i32::MIN <= widest_width(w, i, j) <= i32::MAX,
{
    lemma_via_is_widest(w, i, j);
    lemma_via_in_range(w, w.len(), i, j);
}

/// The entries of `widest_matrix(w)` are the widest widths of `w`.
pub proof fn lemma_widest_matrix_entry(w: Seq<Seq<i32>>, i: int, j: int)
    requires
        0 <= i < w.len(),
        0 <= j < w.len(),
    ensures
        widest_matrix(w)[i][j] == widest_width(w, i, j),
{
    lemma_widest_width_in_range(w, i, j);
}

/// `widest_matrix(w)` holds the widest widths of `w`.
pub proof fn lemma_widest_matrix_is_widest(w: Seq<Seq<i32>>)
    ensures
        is_widest_matrix(w, widest_matrix(w)),
{
    let r = widest_matrix(w);
    assert forall|i: int, j: int| 0 <= i < w.len() && 0 <= j < w.len() implies is_widest_width(
        w,
        i,
        j,
        #[trigger] r[i][j] as int,
    ) by {
        lemma_via_is_widest(w, i, j);
        lemma_widest_width_in_range(w, i, j);
    }
}

/// Only `widest_matrix(w)` holds the widest widths of `w`.
pub proof fn lemma_widest_matrix_unique(w: Seq<Seq<i32>>, r: Seq<Seq<i32>>)
    requires
        is_widest_matrix(w, r),
    ensures
        r == widest_matrix(w),
{
    let expected = widest_matrix(w);
    assert forall|i: int| 0 <= i < w.len() implies #[trigger] r[i] =~= expected[i] by {
        assert forall|j: int| 0 <= j < w.len() implies r[i][j] == expected[i][j] by {
            lemma_via_is_widest(w, i, j);
            assert(is_widest_width(w, i, j, r[i][j] as int));
            lemma_widest_width_unique(w, i, j, r[i][j] as int, widest_width(w, i, j));
        }
    }
    assert(r =~= expected);
}

/// Going from `i` to `j` through `m` is never wider than the widest path
/// from `i` to `j`.
pub proof fn lemma_widest_width_triangle(w: Seq<Seq<i32>>, i: int, j: int, m: int)
    requires
        0 <= i < w.len(),
        0 <= j < w.len(),
        0 <= m < w.len(),
    ensures
        widest_width(w, i, j) >= min(widest_width(w, i, m), widest_width(w, m, j)),
{
    lemma_via_is_widest(w, i, j);
    lemma_via_is_widest(w, i, m);
    lemma_via_is_widest(w, m, j);
    lemma_via_closed(w, w.len(), i, j, m);
}

/// The widest path is at least as wide as the edge itself.
pub proof fn lemma_widest_width_covers_edge(w: Seq<Seq<i32>>, i: int, j: int)
    requires
        0 <= i < w.len(),
        0 <= j < w.len(),
    ensures
        widest_width(w, i, j) >= w[i][j],
{
    lemma_via_is_widest(w, i, j);
    lemma_via_grows(w, 0, w.len(), i, j);
}

/// No path from one node to another is wider than the widest width between
/// them: the widest width never falls short of what a path can carry.
pub proof fn lemma_widest_width_dominates_path(w: Seq<Seq<i32>>, p: Seq<int>)
    requires
        is_path(w.len(), p),
    ensures
        path_width(w, p) <= widest_width(w, p.first(), p.last()),
{
    lemma_via_is_widest(w, p.first(), p.last());
    lemma_via_dominates(w, p);
}

/// A matrix of the widest widths of `w` holds, for every path among the
/// nodes of `w`, at least the path's width at the place of its two ends.
pub proof fn lemma_widest_matrix_dominates_path(w: Seq<Seq<i32>>, r: Seq<Seq<i32>>, p: Seq<int>)
    requires
        is_widest_matrix(w, r),
        is_path(w.len(), p),
    ensures
        path_width(w, p) <= r[p.first()][p.last()],
{
    assert(is_widest_width(w, p.first(), p.last(), r[p.first()][p.last()] as int));
    assert(is_path_between(w.len(), p, p.first(), p.last()));
}

/// A matrix of the widest widths of `w` holds the largest `i32` on its
/// diagonal.
pub proof fn lemma_widest_matrix_diagonal(w: Seq<Seq<i32>>, r: Seq<Seq<i32>>, i: int)
    requires
        is_widest_matrix(w, r),
        0 <= i < w.len(),
    ensures
        r[i][i] == i32::MAX,
{
    lemma_widest_matrix_unique(w, r);
    lemma_widest_width_diagonal(w, i);
}

} // verus!
