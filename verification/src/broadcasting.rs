//! NumPy-style shape broadcasting.

use vstd::prelude::*;
use crate::shape::{
    compute_strides, in_bounds, lemma_positive_size_dims, lemma_unravel_ravel, ravel, ravel_index, shape_size, size_of, unravel, unravel_index,
    valid_shape,
};

verus! {

/// Dimension of `shape` at axis `k` of an `ndim`-dimensional result, the
/// shapes being aligned on their last axis (1 where `shape` has no such axis).
pub open spec fn aligned_dim(shape: Seq<usize>, ndim: int, k: int) -> usize {
    if k >= ndim - shape.len() {
        shape[k - (ndim - shape.len())]
    } else {
        1
    }
}

/// Number of axes of the broadcast of two shapes.
pub open spec fn broadcast_ndim(a: Seq<usize>, b: Seq<usize>) -> int {
    if a.len() >= b.len() {
        a.len() as int
    } else {
        b.len() as int
    }
}

/// Two dimensions broadcast together when they are equal or one of them is 1.
pub open spec fn dims_compatible(x: usize, y: usize) -> bool {
    x == y || x == 1 || y == 1
}

/// The dimension two compatible dimensions broadcast to.
pub open spec fn broadcast_dim(x: usize, y: usize) -> usize {
    if x == y {
        x
    } else if x == 1 {
        y
    } else {
        x
    }
}

/// Every aligned pair of dimensions of `a` and `b` is compatible.
pub open spec fn broadcastable(a: Seq<usize>, b: Seq<usize>) -> bool {
    let n = broadcast_ndim(a, b);
    forall|k: int|
        0 <= k < n ==> #[trigger] dims_compatible(aligned_dim(a, n, k), aligned_dim(b, n, k))
}

/// The broadcast shape of `a` and `b`.
pub open spec fn broadcast_shape(a: Seq<usize>, b: Seq<usize>) -> Seq<usize> {
    let n = broadcast_ndim(a, b);
    Seq::new(n as nat, |k: int| broadcast_dim(aligned_dim(a, n, k), aligned_dim(b, n, k)))
}

/// Broadcast of two shapes, `None` when they are incompatible.
pub open spec fn broadcast_of(a: Seq<usize>, b: Seq<usize>) -> Option<Seq<usize>> {
    if broadcastable(a, b) {
        Some(broadcast_shape(a, b))
    } else {
        None
    }
}

/// Broadcast of a list of shapes taken left to right; `None` for an empty
/// list or as soon as two shapes are incompatible.
pub open spec fn broadcast_all(shapes: Seq<Seq<usize>>) -> Option<Seq<usize>>
    decreases shapes.len(),
{
    if shapes.len() == 0 {
        None
    } else if shapes.len() == 1 {
        Some(shapes[0])
    } else {
        match broadcast_all(shapes.drop_last()) {
            Some(cur) => broadcast_of(cur, shapes.last()),
            None => None,
        }
    }
}

/// Compute the broadcast shape of two shapes, or `None` if incompatible.
pub fn broadcast_shapes(a: &[usize], b: &[usize]) -> (out: Option<Vec<usize>>)
    ensures
        out is Some <==> broadcastable(a@, b@),
        out matches Some(v) ==> v@ == broadcast_shape(a@, b@),
{
    let ndim: usize = if a.len() >= b.len() {
        a.len()
    } else {
        b.len()
    };
    let ghost n = ndim as int;
    let mut out: Vec<usize> = Vec::new();
    for k in 0..ndim
        invariant
            ndim == broadcast_ndim(a@, b@),
            n == ndim,
            out.len() == k,
            forall|j: int|
                0 <= j < k ==> #[trigger] dims_compatible(aligned_dim(a@, n, j), aligned_dim(b@, n, j)),
            forall|j: int|
                0 <= j < k ==> #[trigger] out@[j] == broadcast_dim(
                    aligned_dim(a@, n, j),
                    aligned_dim(b@, n, j),
                ),
    {
        let da: usize = if k >= ndim - a.len() {
            a[k - (ndim - a.len())]
        } else {
            1
        };
        let db: usize = if k >= ndim - b.len() {
            b[k - (ndim - b.len())]
        } else {
            1
        };
        assert(da == aligned_dim(a@, n, k as int));
        assert(db == aligned_dim(b@, n, k as int));
        if da == db {
            out.push(da);
        } else if da == 1 {
            out.push(db);
        } else if db == 1 {
            out.push(da);
        } else {
            assert(!dims_compatible(aligned_dim(a@, n, k as int), aligned_dim(b@, n, k as int)));
            return None;
        }
    }
    proof {
        assert(out@ =~= broadcast_shape(a@, b@));
    }
    Some(out)
}

/// Compute the broadcast shape of a list of shapes, or `None` if the list is
/// empty or the shapes are incompatible.
pub fn broadcast_shapes_many(shapes: &[&[usize]]) -> (out: Option<Vec<usize>>)
    ensures
        out matches Some(v) ==> broadcast_all(shapes@.map_values(|s: &[usize]| s@)) == Some(v@),
        out is None ==> broadcast_all(shapes@.map_values(|s: &[usize]| s@)) is None,
{
    let ghost views = shapes@.map_values(|s: &[usize]| s@);
    let n = shapes.len();
    if n == 0 {
        return None;
    }
    let mut acc: Vec<usize> = vstd::slice::slice_to_vec(shapes[0]);
    proof {
        assert(views.take(1) =~= seq![views[0]]);
    }
    let mut i: usize = 1;
    while i < n
        invariant
            n == shapes.len(),
            1 <= i <= n,
            views == shapes@.map_values(|s: &[usize]| s@),
            broadcast_all(views.take(i as int)) == Some(acc@),
        decreases n - i,
    {
        let ghost prefix = views.take(i + 1);
        proof {
            assert(prefix.drop_last() =~= views.take(i as int));
            assert(prefix.last() == shapes[i as int]@);
        }
        match broadcast_shapes(&acc, shapes[i]) {
            Some(v) => {
                acc = v;
            },
            None => {
                proof {
                    lemma_broadcast_all_none_stays(views, i as int + 1);
                    assert(views.take(n as int) =~= views);
                }
                return None;
            },
        }
        i = i + 1;
    }
    proof {
        assert(views.take(n as int) =~= views);
    }
    Some(acc)
}

/// Once a prefix of the list fails to broadcast, the whole list does.
pub proof fn lemma_broadcast_all_none_stays(shapes: Seq<Seq<usize>>, i: int)
    requires
        1 <= i <= shapes.len(),
        broadcast_all(shapes.take(i)) is None,
    ensures
        broadcast_all(shapes) is None,
    decreases shapes.len() - i,
{
    if i == shapes.len() {
        assert(shapes.take(i) =~= shapes);
    } else {
        let p = shapes.take(i + 1);
        assert(p.drop_last() =~= shapes.take(i));
        lemma_broadcast_all_none_stays(shapes, i + 1);
    }
}

/// Broadcasting is symmetric: `a` with `b` gives the same verdict and shape
/// as `b` with `a`.
pub proof fn lemma_broadcast_commutative(a: Seq<usize>, b: Seq<usize>)
    ensures
        broadcastable(a, b) == broadcastable(b, a),
        broadcastable(a, b) ==> broadcast_shape(a, b) == broadcast_shape(b, a),
{
    let n = broadcast_ndim(a, b);
    assert(n == broadcast_ndim(b, a));
    if broadcastable(a, b) {
        assert forall|k: int| 0 <= k < n implies #[trigger] dims_compatible(
            aligned_dim(b, n, k),
            aligned_dim(a, n, k),
        ) by {
            assert(dims_compatible(aligned_dim(a, n, k), aligned_dim(b, n, k)));
        }
        assert(broadcast_shape(a, b) =~= broadcast_shape(b, a)) by {
            assert forall|k: int| 0 <= k < n implies broadcast_shape(a, b)[k] == broadcast_shape(
                b,
                a,
            )[k] by {
                assert(dims_compatible(aligned_dim(a, n, k), aligned_dim(b, n, k)));
            }
        }
    }
    if broadcastable(b, a) {
        assert forall|k: int| 0 <= k < n implies #[trigger] dims_compatible(
            aligned_dim(a, n, k),
            aligned_dim(b, n, k),
        ) by {
            assert(dims_compatible(aligned_dim(b, n, k), aligned_dim(a, n, k)));
        }
    }
}

/// Every shape broadcasts with itself to itself.
pub proof fn lemma_broadcast_idempotent(a: Seq<usize>)
    ensures
        broadcastable(a, a),
        broadcast_shape(a, a) == a,
{
    let n = broadcast_ndim(a, a);
    assert forall|k: int| 0 <= k < n implies #[trigger] dims_compatible(
        aligned_dim(a, n, k),
        aligned_dim(a, n, k),
    ) by {}
    assert(broadcast_shape(a, a) =~= a);
}

/// The empty (scalar) shape broadcasts with every shape to that shape.
pub proof fn lemma_broadcast_scalar(a: Seq<usize>)
    ensures
        broadcastable(a, Seq::empty()),
        broadcast_shape(a, Seq::empty()) == a,
{
    let e = Seq::<usize>::empty();
    let n = broadcast_ndim(a, e);
    assert forall|k: int| 0 <= k < n implies #[trigger] dims_compatible(
        aligned_dim(a, n, k),
        aligned_dim(e, n, k),
    ) by {}
    assert(broadcast_shape(a, e) =~= a);
}

/// Each operand broadcasts to the common shape, and broadcasting it there
/// leaves the common shape unchanged.
pub proof fn lemma_broadcast_result_absorbs(a: Seq<usize>, b: Seq<usize>)
    requires
        broadcastable(a, b),
    ensures
        broadcastable(a, broadcast_shape(a, b)),
        broadcast_shape(a, broadcast_shape(a, b)) == broadcast_shape(a, b),
{
    let r = broadcast_shape(a, b);
    let n = broadcast_ndim(a, b);
    assert(broadcast_ndim(a, r) == n);
    assert forall|k: int| 0 <= k < n implies #[trigger] dims_compatible(
        aligned_dim(a, n, k),
        aligned_dim(r, n, k),
    ) by {
        assert(aligned_dim(r, n, k) == r[k]);
        assert(dims_compatible(aligned_dim(a, n, k), aligned_dim(b, n, k)));
    }
    assert forall|k: int| 0 <= k < n implies broadcast_shape(a, r)[k] == r[k] by {
        assert(aligned_dim(r, n, k) == r[k]);
        assert(dims_compatible(aligned_dim(a, n, k), aligned_dim(b, n, k)));
    }
    assert(broadcast_shape(a, r) =~= r);
}

/// Broadcasting a list of two shapes is broadcasting the pair.
pub proof fn lemma_broadcast_all_pair(a: Seq<usize>, b: Seq<usize>)
    ensures
        broadcast_all(seq![a, b]) == broadcast_of(a, b),
{
    let s = seq![a, b];
    assert(s.drop_last() =~= seq![a]);
    assert(broadcast_all(seq![a]) == Some(a));
}


/// `src` can be materialized at shape `dst`: it holds a single element, or it
/// has no more axes than `dst` and broadcasts with it.
pub open spec fn can_broadcast_to(src: Seq<usize>, dst: Seq<usize>) -> bool {
    shape_size(src) == 1 || (src.len() <= dst.len() && broadcastable(src, dst))
}

/// Multi-index of `src` feeding position `dst_coords` of its broadcast to
/// `dst`: axes of length greater than 1 follow the aligned output axis, the
/// others stay at 0.
pub open spec fn broadcast_source_coords(
    src: Seq<usize>,
    dst: Seq<usize>,
    dst_coords: Seq<usize>,
) -> Seq<usize> {
    let off = dst.len() - src.len();
    Seq::new(
        src.len(),
        |j: int|
            if src[j] > 1 {
                dst_coords[j + off]
            } else {
                0
            },
    )
}

/// Flat position of `src` copied to flat position `flat` of the broadcast.
pub open spec fn broadcast_source(src: Seq<usize>, dst: Seq<usize>, flat: int) -> int {
    if shape_size(src) == 1 {
        0
    } else {
        ravel(src, broadcast_source_coords(src, dst, unravel(dst, flat)))
    }
}

proof fn lemma_broadcast_source_in_bounds(src: Seq<usize>, dst: Seq<usize>, dc: Seq<usize>)
    requires
        src.len() <= dst.len(),
        broadcastable(src, dst),
        in_bounds(dst, dc),
        shape_size(src) > 0,
    ensures
        in_bounds(src, broadcast_source_coords(src, dst, dc)),
{
    lemma_positive_size_dims(src);
    let n = broadcast_ndim(src, dst);
    assert(n == dst.len());
    let off = dst.len() - src.len();
    let sc = broadcast_source_coords(src, dst, dc);
    assert forall|j: int| 0 <= j < src.len() implies #[trigger] sc[j] < src[j] by {
        let k = j + off;
        assert(aligned_dim(src, n, k) == src[j]);
        assert(aligned_dim(dst, n, k) == dst[k]);
        assert(dims_compatible(aligned_dim(src, n, k), aligned_dim(dst, n, k)));
        assert(src[j] > 0);
    }
}

/// Source positions of a broadcast: entry `o` is the flat position of `src`
/// whose value lands at flat position `o` of an array of shape `dst`.
pub fn broadcast_to_indices(src: &[usize], dst: &[usize]) -> (map: Vec<usize>)
    requires
        valid_shape(src@),
        valid_shape(dst@),
        can_broadcast_to(src@, dst@),
        shape_size(dst@) == 0 || shape_size(src@) > 0,
    ensures
        map.len() == shape_size(dst@),
        forall|o: int|
            0 <= o < map.len() ==> #[trigger] map@[o] == broadcast_source(src@, dst@, o)
                && map@[o] < shape_size(src@),
{
    let total = size_of(dst);
    let src_total = size_of(src);
    let mut map: Vec<usize> = Vec::new();
    if src_total == 1 {
        for o in 0..total
            invariant
                map.len() == o,
                shape_size(src@) == 1,
                forall|p: int| 0 <= p < o ==> #[trigger] map@[p] == 0,
        {
            map.push(0);
        }
        return map;
    }
    let src_strides = compute_strides(src);
    let dst_strides = compute_strides(dst);
    let n_src = src.len();
    let n_dst = dst.len();
    for o in 0..total
        invariant
            total == shape_size(dst@),
            src_total == shape_size(src@),
            src_total != 1,
            n_src == src.len(),
            n_dst == dst.len(),
            valid_shape(src@),
            valid_shape(dst@),
            can_broadcast_to(src@, dst@),
            shape_size(dst@) == 0 || shape_size(src@) > 0,
            src_strides@ == crate::shape::row_major_strides(src@),
            dst_strides@ == crate::shape::row_major_strides(dst@),
            map.len() == o,
            forall|p: int|
                0 <= p < o ==> #[trigger] map@[p] == broadcast_source(src@, dst@, p) && map@[p]
                    < shape_size(src@),
    {
        let dc = unravel_index(dst, &dst_strides, o);
        let off: usize = n_dst - n_src;
        let mut sc: Vec<usize> = Vec::new();
        for j in 0..n_src
            invariant
                n_src == src.len(),
                n_dst == dst.len(),
                off == n_dst - n_src,
                dc.len() == n_dst,
                sc.len() == j,
                forall|i: int|
                    0 <= i < j ==> #[trigger] sc@[i] == broadcast_source_coords(
                        src@,
                        dst@,
                        dc@,
                    )[i],
        {
            if src[j] > 1 {
                sc.push(dc[j + off]);
            } else {
                sc.push(0);
            }
        }
        proof {
            assert(sc@ =~= broadcast_source_coords(src@, dst@, dc@));
            lemma_broadcast_source_in_bounds(src@, dst@, dc@);
        }
        let s = ravel_index(src, &src_strides, &sc);
        map.push(s);
    }
    map
}

/// Broadcasting an array to its own shape copies every element in place.
pub proof fn lemma_broadcast_to_same_shape(shape: Seq<usize>, flat: int)
    requires
        0 <= flat < shape_size(shape),
    ensures
        broadcast_source(shape, shape, flat) == flat,
{
    lemma_unravel_ravel(shape, flat);
    let c = unravel(shape, flat);
    let sc = broadcast_source_coords(shape, shape, c);
    assert(sc =~= c);
    if shape_size(shape) == 1 {
        assert(flat == 0);
    }
}

/// Whether an operand of shape `other` can be combined in place into an
/// array of shape `target`: the two broadcast, and to `target` itself.
pub fn broadcasts_into(target: &[usize], other: &[usize]) -> (b: bool)
    ensures
        b == (broadcastable(target@, other@) && broadcast_shape(target@, other@) == target@),
{
    match broadcast_shapes(target, other) {
        None => false,
        Some(s) => {
            let n = s.len();
            if n != target.len() {
                return false;
            }
            for i in 0..n
                invariant
                    n == s.len(),
                    n == target.len(),
                    s@ == broadcast_shape(target@, other@),
                    forall|t: int| 0 <= t < i ==> #[trigger] s@[t] == target@[t],
            {
                if s[i] != target[i] {
                    assert(s@[i as int] != target@[i as int]);
                    assert(s@ != target@);
                    return false;
                }
            }
            assert(s@ =~= target@);
            true
        },
    }
}

} // verus!
