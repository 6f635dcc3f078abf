//! Layout plans of the array manipulations: axis reductions, sub-ranges,
//! splitting, concatenation, `nonzero`, and matrix-product shapes.
//!
//! Each plan says which flat positions of the inputs feed which flat
//! positions of the output; the caller moves the element values.

use vstd::prelude::*;
use crate::shape::{
    compute_strides, in_bounds, lemma_positive_size_dims, lemma_ravel_bounds, lemma_ravel_unravel,
    lemma_ravel_update, lemma_size_skip_step, lemma_size_split, lemma_unravel_ravel,
    lemma_valid_monotone, prefix_products_fit, ravel, ravel_index, row_major_stride,
    row_major_strides, shape_size, size_of, unravel, unravel_index, valid_shape,
};
use crate::index::{mask_positions, mask_to_positions};

verus! {

/// Multi-index of `shape` for position `t` along `axis` of the lane that
/// output position `o` of the reduction over `axis` stands for.
pub open spec fn lane_coords(shape: Seq<usize>, axis: int, o: int, t: usize) -> Seq<usize> {
    unravel(shape.remove(axis), o).insert(axis, t)
}

/// Flat position of element `t` of lane `o` of a reduction over `axis`.
pub open spec fn lane_position(shape: Seq<usize>, axis: int, o: int, t: usize) -> int {
    ravel(shape, lane_coords(shape, axis, o, t))
}

/// The lanes of a reduction over `axis`: one lane per element of the shape
/// with that axis removed, taken in row-major order.
pub struct AxisLanes {
    /// Shape of the reduction's result (the input shape without the axis).
    pub out_shape: Vec<usize>,
    /// Flat position of the first element of each lane.
    pub bases: Vec<usize>,
    /// Distance between consecutive elements of a lane.
    pub stride: usize,
    /// Number of elements of each lane.
    pub len: usize,
}

proof fn lemma_lane_coords_in_bounds(shape: Seq<usize>, axis: int, o: int, t: usize)
    requires
        0 <= axis < shape.len(),
        0 <= o < shape_size(shape.remove(axis)),
        t < shape[axis],
    ensures
        in_bounds(shape, lane_coords(shape, axis, o, t)),
{
    let r = shape.remove(axis);
    lemma_unravel_ravel(r, o);
    let c = unravel(r, o);
    let lc = lane_coords(shape, axis, o, t);
    assert forall|k: int| 0 <= k < shape.len() implies #[trigger] lc[k] < shape[k] by {
        if k < axis {
            assert(lc[k] == c[k]);
            assert(r[k] == shape[k]);
        } else if k > axis {
            assert(lc[k] == c[k - 1]);
            assert(r[k - 1] == shape[k]);
        }
    }
}

/// The lanes of a reduction of an array of shape `shape` over `axis`: the
/// `t`-th element of lane `o` sits at `bases[o] + t * stride`.
pub fn axis_lanes(shape: &[usize], axis: usize) -> (r: Option<AxisLanes>)
    requires
        valid_shape(shape@),
        axis < shape.len(),
    ensures
        r is None <==> !prefix_products_fit(shape@.remove(axis as int)),
        r matches Some(lanes) ==> lanes_of(shape@, axis as int, lanes),
{
    match axis_lanes_checked(shape, axis) {
        Some(l) => Some(l),
        None => None,
    }
}

/// The lanes describe the reduction of `shape` over `axis`; the positions of
/// an empty axis's lanes are all 0.
pub open spec fn lanes_of(shape: Seq<usize>, axis: int, lanes: AxisLanes) -> bool {
    &&& lanes.out_shape@ == shape.remove(axis)
    &&& lanes.len == shape[axis]
    &&& lanes.stride == row_major_stride(shape, axis)
    &&& lanes.bases.len() == shape_size(shape.remove(axis))
    &&& lanes.len == 0 ==> forall|o: int| 0 <= o < lanes.bases.len() ==> #[trigger] lanes.bases@[o] == 0
    &&& lanes.len > 0 ==> forall|o: int|
        0 <= o < lanes.bases.len() ==> #[trigger] lanes.bases@[o] == lane_position(shape, axis, o, 0)
    &&& forall|o: int, t: int|
        0 <= o < lanes.bases.len() && 0 <= t < lanes.len ==> #[trigger] (lanes.bases@[o] + t
            * lanes.stride) == lane_position(shape, axis, o, t as usize) && lanes.bases@[o] + t
            * lanes.stride < shape_size(shape)
}

/// A reduction over an axis reads every element exactly once: distinct
/// (lane, step) pairs designate distinct positions, all inside the array.
pub proof fn lemma_lanes_distinct(shape: Seq<usize>, axis: int, o: int, t: usize, o2: int, t2: usize)
    requires
        0 <= axis < shape.len(),
        0 <= o < shape_size(shape.remove(axis)),
        0 <= o2 < shape_size(shape.remove(axis)),
        t < shape[axis],
        t2 < shape[axis],
        o != o2 || t != t2,
    ensures
        0 <= lane_position(shape, axis, o, t) < shape_size(shape),
        lane_position(shape, axis, o, t) != lane_position(shape, axis, o2, t2),
{
    let r = shape.remove(axis);
    lemma_lane_coords_in_bounds(shape, axis, o, t);
    lemma_lane_coords_in_bounds(shape, axis, o2, t2);
    let c = lane_coords(shape, axis, o, t);
    let c2 = lane_coords(shape, axis, o2, t2);
    lemma_ravel_bounds(shape, c);
    lemma_unravel_ravel(r, o);
    lemma_unravel_ravel(r, o2);
    if lane_position(shape, axis, o, t) == lane_position(shape, axis, o2, t2) {
        lemma_ravel_unravel(shape, c);
        lemma_ravel_unravel(shape, c2);
        assert(c == c2);
        assert(c[axis] == t && c2[axis] == t2);
        let u = unravel(r, o);
        let u2 = unravel(r, o2);
        assert(u =~= u2) by {
            assert forall|k: int| 0 <= k < u.len() implies u[k] == u2[k] by {
                if k < axis {
                    assert(c[k] == u[k] && c2[k] == u2[k]);
                } else {
                    assert(c[k + 1] == u[k] && c2[k + 1] == u2[k]);
                }
            }
        }
        assert(false);
    }
}

/// The lanes of a reduction over an axis hold as many elements as the array.
pub proof fn lemma_lanes_count(shape: Seq<usize>, axis: int)
    requires
        0 <= axis < shape.len(),
    ensures
        shape_size(shape.remove(axis)) * shape[axis] == shape_size(shape),
{
    let r = shape.remove(axis);
    lemma_size_split(shape, axis);
    lemma_size_skip_step(shape, axis);
    lemma_size_split(r, axis);
    assert(r.take(axis) =~= shape.take(axis));
    assert(r.skip(axis) =~= shape.skip(axis + 1));
    let a = shape_size(shape.take(axis)) as int;
    let b = shape_size(shape.skip(axis + 1)) as int;
    let d = shape[axis] as int;
    assert((a * b) * d == a * (d * b)) by (nonlinear_arith);
}

fn axis_lanes_checked(shape: &[usize], axis: usize) -> (r: Option<AxisLanes>)
    requires
        valid_shape(shape@),
        axis < shape.len(),
    ensures
        r is None <==> !prefix_products_fit(shape@.remove(axis as int)),
        r matches Some(lanes) ==> lanes.out_shape@ == shape@.remove(axis as int),
        r matches Some(lanes) ==> lanes_of(shape@, axis as int, lanes),
{
    let ghost s = shape@;
    let ghost ax = axis as int;
    let mut out_shape: Vec<usize> = Vec::new();
    for k in 0..shape.len()
        invariant
            axis < shape.len(),
            out_shape.len() == (if k <= axis {
                k as int
            } else {
                k - 1
            }),
            forall|j: int|
                0 <= j < out_shape.len() ==> #[trigger] out_shape@[j] == (if j < axis {
                    s[j]
                } else {
                    s[j + 1]
                }),
            s == shape@,
    {
        if k != axis {
            out_shape.push(shape[k]);
        }
    }
    assert(out_shape@ =~= s.remove(ax));
    let strides = compute_strides(shape);
    let stride = strides[axis];
    let len = shape[axis];
    let mut bases: Vec<usize> = Vec::new();
    proof {
        let r = s.remove(ax);
        assert(r.len() == s.len() - 1);
        let bigger = s.update(ax, 1);
        assert forall|k: int| 0 <= k < r.len() implies #[trigger] r[k] <= r[k] by {}
        if shape_size(r) > 0 && len > 0 {
            lemma_positive_size_dims(r);
        }
    }
    let ghost r = s.remove(ax);
    if len == 0 {
        let total = match crate::shape::checked_size(&out_shape) {
            Some(t) => t,
            None => {
                return None;
            },
        };
        for o in 0..total
            invariant
                bases.len() == o,
                forall|p: int| 0 <= p < o ==> #[trigger] bases@[p] == 0,
        {
            bases.push(0);
        }
        return Some(AxisLanes { out_shape, bases, stride, len });
    }
    proof {
        lemma_valid_remove(s, ax);
    }
    let total = size_of(&out_shape);
    if total == 0 {
        return Some(AxisLanes { out_shape, bases, stride, len });
    }
    let out_strides = compute_strides(&out_shape);
    for o in 0..total
        invariant
            s == shape@,
            ax == axis,
            r == s.remove(ax),
            out_shape@ == r,
            total == shape_size(r),
            total > 0,
            len == s[ax],
            len > 0,
            axis < shape.len(),
            valid_shape(s),
            valid_shape(r),
            strides@ == row_major_strides(s),
            out_strides@ == row_major_strides(r),
            stride == row_major_stride(s, ax),
            bases.len() == o,
            forall|p: int| 0 <= p < o ==> #[trigger] bases@[p] == lane_position(s, ax, p, 0),
    {
        let c = unravel_index(&out_shape, &out_strides, o);
        let mut full: Vec<usize> = Vec::new();
        for k in 0..shape.len()
            invariant
                axis < shape.len(),
                c.len() == shape.len() - 1,
                full.len() == k,
                forall|j: int|
                    0 <= j < k ==> #[trigger] full@[j] == c@.insert(axis as int, 0usize)[j],
        {
            if k < axis {
                full.push(c[k]);
            } else if k == axis {
                full.push(0);
            } else {
                full.push(c[k - 1]);
            }
        }
        proof {
            assert(full@ =~= lane_coords(s, ax, o as int, 0));
            lemma_lane_coords_in_bounds(s, ax, o as int, 0);
        }
        let b = ravel_index(shape, &strides, &full);
        bases.push(b);
    }
    proof {
        assert forall|o: int, t: int| 0 <= o < bases.len() && 0 <= t < len implies #[trigger] (bases@[o]
            + t * stride) == lane_position(s, ax, o, t as usize) && bases@[o] + t * stride
            < shape_size(s) by {
            let c0 = lane_coords(s, ax, o, 0);
            lemma_lane_coords_in_bounds(s, ax, o, 0);
            lemma_lane_coords_in_bounds(s, ax, o, t as usize);
            let ct = lane_coords(s, ax, o, t as usize);
            let u = unravel(r, o);
            lemma_unravel_ravel(r, o);
            assert(u.len() == r.len());
            assert forall|k: int| 0 <= k < s.len() implies #[trigger] c0.update(ax, t as usize)[k]
                == ct[k] by {
                if k < ax {
                    assert(c0[k] == u[k]);
                    assert(ct[k] == u[k]);
                } else if k > ax {
                    assert(c0[k] == u[k - 1]);
                    assert(ct[k] == u[k - 1]);
                }
            }
            assert(c0.update(ax, t as usize) =~= ct);
            lemma_ravel_update(s, c0, ax, t as usize);
            lemma_ravel_bounds(s, lane_coords(s, ax, o, t as usize));
        }
    }
    Some(AxisLanes { out_shape, bases, stride, len })
}

/// Removing an axis from a valid shape leaves a valid shape, provided that
/// axis is not empty.
proof fn lemma_valid_remove(s: Seq<usize>, ax: int)
    requires
        valid_shape(s),
        0 <= ax < s.len(),
        s[ax] > 0,
    ensures
        valid_shape(s.remove(ax)),
{
    let r = s.remove(ax);
    let padded = r.insert(ax, 1usize);
    assert forall|k: int| 0 <= k < padded.len() implies #[trigger] padded[k] <= s[k] by {}
    lemma_valid_monotone(padded, s);
    assert forall|i: int| 0 <= i <= r.len() implies #[trigger] shape_size(r.take(i)) <= usize::MAX by {
        lemma_take_with_unit(r, ax, i);
    }
    assert forall|i: int| 1 <= i <= r.len() implies #[trigger] shape_size(r.skip(i)) <= usize::MAX by {
        lemma_skip_with_unit(r, ax, i);
    }
}

proof fn lemma_size_unit_insert(r: Seq<usize>, ax: int)
    requires
        0 <= ax <= r.len(),
    ensures
        shape_size(r.insert(ax, 1usize)) == shape_size(r),
    decreases r.len(),
{
    let p = r.insert(ax, 1usize);
    if ax == 0 {
        assert(p.drop_first() =~= r);
        assert(p[0] == 1);
        assert(shape_size(p) == p[0] * shape_size(p.drop_first()));
        vstd::arithmetic::mul::lemma_mul_basics(shape_size(r) as int);
    } else {
        assert(p.drop_first() =~= r.drop_first().insert(ax - 1, 1usize));
        lemma_size_unit_insert(r.drop_first(), ax - 1);
        assert(p[0] == r[0]);
        assert(shape_size(p) == p[0] * shape_size(p.drop_first()));
        assert(shape_size(r) == r[0] * shape_size(r.drop_first()));
    }
}

proof fn lemma_take_with_unit(r: Seq<usize>, ax: int, i: int)
    requires
        0 <= ax <= r.len(),
        0 <= i <= r.len(),
        valid_shape(r.insert(ax, 1usize)),
    ensures
        shape_size(r.take(i)) <= usize::MAX,
{
    let p = r.insert(ax, 1usize);
    if i <= ax {
        assert(p.take(i) =~= r.take(i));
        assert(shape_size(p.take(i)) <= usize::MAX);
    } else {
        assert(p.take(i + 1) =~= r.take(i).insert(ax, 1usize));
        lemma_size_unit_insert(r.take(i), ax);
        assert(shape_size(p.take(i + 1)) <= usize::MAX);
    }
}

proof fn lemma_skip_with_unit(r: Seq<usize>, ax: int, i: int)
    requires
        0 <= ax <= r.len(),
        1 <= i <= r.len(),
        valid_shape(r.insert(ax, 1usize)),
    ensures
        shape_size(r.skip(i)) <= usize::MAX,
{
    let p = r.insert(ax, 1usize);
    if i >= ax {
        assert(p.skip(i + 1) =~= r.skip(i));
        assert(shape_size(p.skip(i + 1)) <= usize::MAX);
    } else {
        assert(p.skip(i) =~= r.skip(i).insert(ax - i, 1usize));
        lemma_size_unit_insert(r.skip(i), ax - i);
        assert(shape_size(p.skip(i)) <= usize::MAX);
    }
}

/// Flat position of `shape` read into position `o` of the sub-range
/// `start..start + len` along `axis`.
pub open spec fn range_source(shape: Seq<usize>, axis: int, start: int, len: int, o: int) -> int {
    let c = unravel(shape.update(axis, len as usize), o);
    ravel(shape, c.update(axis, (c[axis] + start) as usize))
}

/// Source positions of the contiguous sub-range `start..start + len` along
/// `axis` of an array of shape `shape`, in row-major order of the result
/// (whose shape is `shape` with that axis set to `len`).
pub fn axis_range_indices(shape: &[usize], axis: usize, start: usize, len: usize) -> (map: Vec<usize>)
    requires
        valid_shape(shape@),
        axis < shape.len(),
        start + len <= shape@[axis as int],
    ensures
        map.len() == shape_size(shape@.update(axis as int, len)),
        forall|o: int|
            0 <= o < map.len() ==> #[trigger] map@[o] == range_source(
                shape@,
                axis as int,
                start as int,
                len as int,
                o,
            ) && map@[o] < shape_size(shape@),
{
    let ghost s = shape@;
    let ghost ax = axis as int;
    let mut out_shape: Vec<usize> = vstd::slice::slice_to_vec(shape);
    out_shape.set(axis, len);
    let ghost os = out_shape@;
    assert(os =~= s.update(ax, len));
    proof {
        assert forall|k: int| 0 <= k < os.len() implies #[trigger] os[k] <= s[k] by {}
        lemma_valid_monotone(os, s);
    }
    let total = size_of(&out_shape);
    let mut map: Vec<usize> = Vec::new();
    if total == 0 {
        return map;
    }
    let strides = compute_strides(shape);
    let out_strides = compute_strides(&out_shape);
    for o in 0..total
        invariant
            s == shape@,
            os == out_shape@,
            os == s.update(ax, len),
            ax == axis,
            axis < shape.len(),
            start + len <= s[ax],
            valid_shape(s),
            valid_shape(os),
            total == shape_size(os),
            strides@ == row_major_strides(s),
            out_strides@ == row_major_strides(os),
            map.len() == o,
            forall|p: int|
                0 <= p < o ==> #[trigger] map@[p] == range_source(s, ax, start as int, len as int, p)
                    && map@[p] < shape_size(s),
    {
        let mut c = unravel_index(&out_shape, &out_strides, o);
        let ghost c0 = c@;
        let v: usize = c[axis] + start;
        c.set(axis, v);
        proof {
            assert(c@ =~= c0.update(ax, (c0[ax] + start) as usize));
            assert forall|k: int| 0 <= k < s.len() implies #[trigger] c@[k] < s[k] by {
                assert(c0[k] < os[k]);
            }
            lemma_ravel_bounds(s, c@);
        }
        let src = ravel_index(shape, &strides, &c);
        map.push(src);
    }
    map
}

/// Why a split was refused.
#[derive(Debug, PartialEq, Eq, Structural)]
pub enum SplitError {
    AxisOutOfBounds { axis: usize, ndim: usize },
    /// A split point at 0 or at or beyond the end of the axis.
    IndexOutOfRange { index: usize, dim: usize },
    /// Split points that go backwards.
    Decreasing,
    /// Zero sections were requested.
    ZeroSections,
    /// The axis length is not a multiple of the number of sections.
    UnequalDivision { dim: usize, sections: usize },
}

/// The first split point outside `1..dim`, if any.
pub open spec fn first_bad_split(indices: Seq<usize>, dim: int) -> Option<usize>
    decreases indices.len(),
{
    if indices.len() == 0 {
        None
    } else if indices[0] == 0 || indices[0] >= dim {
        Some(indices[0])
    } else {
        first_bad_split(indices.drop_first(), dim)
    }
}

/// The boundaries of the pieces: 0, the split points, and the axis length.
pub open spec fn split_bounds(indices: Seq<usize>, dim: usize) -> Seq<usize> {
    seq![0usize] + indices + seq![dim]
}

/// The boundaries never go backwards.
pub open spec fn bounds_ordered(b: Seq<usize>) -> bool {
    forall|t: int| 0 <= t < b.len() - 1 ==> #[trigger] b[t] <= b[t + 1]
}

/// Pieces `(start, length)` along `axis` that splitting an array of shape
/// `shape` at `indices` produces.
#[verifier::spinoff_prover]
#[verifier::rlimit(30)]
pub fn split_ranges(shape: &[usize], indices: &[usize], axis: usize) -> (r: Result<
    Vec<(usize, usize)>,
    SplitError,
>)
    ensures
        axis >= shape.len() <==> r matches Err(SplitError::AxisOutOfBounds { .. }),
        r matches Err(SplitError::AxisOutOfBounds { axis: a, ndim }) ==> a == axis && ndim
            == shape.len(),
        axis < shape.len() ==> (first_bad_split(indices@, shape@[axis as int] as int) matches Some(i)
            <==> r matches Err(SplitError::IndexOutOfRange { .. })),
        axis < shape.len() ==> (r matches Err(SplitError::IndexOutOfRange { index, dim }) ==> first_bad_split(
            indices@,
            shape@[axis as int] as int,
        ) == Some(index) && dim == shape@[axis as int]),
        axis < shape.len() && first_bad_split(indices@, shape@[axis as int] as int) is None ==> (r
            matches Err(SplitError::Decreasing) <==> !bounds_ordered(
            split_bounds(indices@, shape@[axis as int]),
        )),
        r matches Err(e) ==> !(e is ZeroSections) && !(e is UnequalDivision),
        r matches Ok(p) ==> p.len() == indices.len() + 1 && forall|t: int|
            0 <= t < p.len() ==> #[trigger] p@[t] == (
                split_bounds(indices@, shape@[axis as int])[t],
                (split_bounds(indices@, shape@[axis as int])[t + 1] - split_bounds(
                    indices@,
                    shape@[axis as int],
                )[t]) as usize,
            ),
{
    if axis >= shape.len() {
        return Err(SplitError::AxisOutOfBounds { axis, ndim: shape.len() });
    }
    let dim = shape[axis];
    proof {
        assert(indices@.skip(0) =~= indices@);
    }
    for j in 0..indices.len()
        invariant
            axis < shape.len(),
            dim == shape@[axis as int],
            first_bad_split(indices@, dim as int) == first_bad_split(indices@.skip(j as int), dim as int),
    {
        proof {
            assert(indices@.skip(j as int).drop_first() =~= indices@.skip(j + 1));
            assert(indices@.skip(j as int)[0] == indices@[j as int]);
        }
        let i = indices[j];
        if i == 0 || i >= dim {
            return Err(SplitError::IndexOutOfRange { index: i, dim });
        }
    }
    proof {
        assert(indices@.skip(indices.len() as int) =~= Seq::<usize>::empty());
    }
    let ghost b = split_bounds(indices@, dim);
    let mut out: Vec<(usize, usize)> = Vec::new();
    let mut prev: usize = 0;
    let n = indices.len();
    for j in 0..n
        invariant
            axis < shape.len(),
            dim == shape@[axis as int],
            n == indices.len(),
            first_bad_split(indices@, dim as int) is None,
            b == split_bounds(indices@, dim),
            b.len() == indices.len() + 2,
            prev == b[j as int],
            out.len() == j,
            forall|t: int| 0 <= t < j ==> #[trigger] b[t] <= b[t + 1],
            forall|t: int|
                0 <= t < j ==> #[trigger] out@[t] == (b[t], (b[t + 1] - b[t]) as usize),
    {
        let next: usize = indices[j];
        assert(next == b[j + 1]);
        if next < prev {
            return Err(SplitError::Decreasing);
        }
        out.push((prev, next - prev));
        prev = next;
    }
    assert(dim == b[n + 1]);
    if dim < prev {
        return Err(SplitError::Decreasing);
    }
    out.push((prev, dim - prev));
    assert(bounds_ordered(b));
    Ok(out)
}

/// Split points that cut an axis of length `dim` into `sections` equal
/// pieces.
pub fn split_sections(dim: usize, sections: usize) -> (r: Result<Vec<usize>, SplitError>)
    ensures
        sections == 0 <==> r matches Err(SplitError::ZeroSections),
        sections > 0 && dim % sections != 0 <==> r matches Err(SplitError::UnequalDivision { .. }),
        r matches Err(SplitError::UnequalDivision { dim: d, sections: s }) ==> d == dim && s
            == sections,
        r matches Ok(v) ==> v.len() == sections - 1 && forall|t: int|
            0 <= t < v.len() ==> #[trigger] v@[t] == (t + 1) * dim / (sections as int),
{
    if sections == 0 {
        return Err(SplitError::ZeroSections);
    }
    if dim % sections != 0 {
        return Err(SplitError::UnequalDivision { dim, sections });
    }
    let q: usize = dim / sections;
    let mut out: Vec<usize> = Vec::new();
    for i in 1..sections
        invariant
            sections > 0,
            dim % sections == 0,
            q == dim / sections,
            out.len() == i - 1,
            forall|t: int| 0 <= t < out.len() ==> #[trigger] out@[t] == (t + 1) * dim / (sections as int),
    {
        proof {
            vstd::arithmetic::div_mod::lemma_fundamental_div_mod(dim as int, sections as int);
            assert(dim == sections * q);
            assert(i * q <= sections * q) by (nonlinear_arith)
                requires
                    i < sections,
                    q >= 0,
            ;
            assert(i * dim == (i * q) * sections) by (nonlinear_arith)
                requires
                    dim == sections * q,
            ;
            vstd::arithmetic::div_mod::lemma_div_multiples_vanish(i * q as int, sections as int);
            assert((i * q) * sections == sections * (i * q)) by (nonlinear_arith);
        }
        out.push(i * q);
    }
    Ok(out)
}

/// Per-axis coordinates of the flagged elements of an array of shape
/// `shape`, flagged elements taken in row-major order.
pub fn nonzero_coords(shape: &[usize], flags: &[bool]) -> (out: Vec<Vec<usize>>)
    requires
        valid_shape(shape@),
        flags.len() == shape_size(shape@),
    ensures
        out.len() == shape.len(),
        forall|k: int|
            0 <= k < shape.len() ==> #[trigger] out@[k]@ == mask_positions(flags@).map_values(
                |p: usize| unravel(shape@, p as int)[k],
            ),
{
    let ndim = shape.len();
    let positions = mask_to_positions(flags);
    proof {
        crate::index::lemma_mask_positions_bound_pub(flags@);
    }
    let strides = compute_strides(shape);
    let mut out: Vec<Vec<usize>> = Vec::new();
    for k in 0..ndim
        invariant
            ndim == shape.len(),
            out.len() == k,
            forall|j: int| 0 <= j < k ==> #[trigger] out@[j]@.len() == 0,
    {
        out.push(Vec::new());
    }
    for i in 0..positions.len()
        invariant
            ndim == shape.len(),
            valid_shape(shape@),
            flags.len() == shape_size(shape@),
            strides@ == row_major_strides(shape@),
            positions@ == mask_positions(flags@),
            forall|t: int| 0 <= t < positions.len() ==> #[trigger] positions@[t] < flags.len(),
            out.len() == ndim,
            forall|j: int|
                0 <= j < ndim ==> #[trigger] out@[j]@ == positions@.take(i as int).map_values(
                    |p: usize| unravel(shape@, p as int)[j],
                ),
    {
        let p = positions[i];
        let c = unravel_index(shape, &strides, p);
        let ghost before = out@;
        let mut k: usize = 0;
        while k < ndim
            invariant
                ndim == shape.len(),
                c.len() == ndim,
                c@ == unravel(shape@, p as int),
                out.len() == ndim,
                k <= ndim,
                forall|j: int|
                    0 <= j < k ==> #[trigger] out@[j]@ == before[j]@.push(c@[j]),
                forall|j: int| k <= j < ndim ==> #[trigger] out@[j] == before[j],
            decreases ndim - k,
        {
            let mut lane: Vec<usize> = Vec::new();
            std::mem::swap(&mut lane, &mut out[k]);
            lane.push(c[k]);
            out.set(k, lane);
            k = k + 1;
        }
        proof {
            assert forall|j: int| 0 <= j < ndim implies #[trigger] out@[j]@ == positions@.take(
                i + 1,
            ).map_values(|q: usize| unravel(shape@, q as int)[j]) by {
                assert(positions@.take(i + 1) =~= positions@.take(i as int).push(p));
                assert(positions@.take(i + 1).map_values(|q: usize| unravel(shape@, q as int)[j])
                    =~= positions@.take(i as int).map_values(|q: usize| unravel(shape@, q as int)[j]).push(
                    unravel(shape@, p as int)[j],
                ));
            }
        }
    }
    proof {
        assert(positions@.take(positions.len() as int) =~= positions@);
    }
    out
}

/// Why a concatenation was refused.
#[derive(Debug, PartialEq, Eq, Structural)]
pub enum ConcatError {
    /// No arrays were given.
    Empty,
    AxisOutOfBounds { axis: usize, ndim: usize },
    /// The arrays differ in their number of axes.
    NdimMismatch,
    /// Two arrays differ along an axis other than the concatenation axis.
    DimMismatch { dim: usize, size: usize, expected: usize },
    /// The result's size or strides overflow.
    Overflow,
}

/// First axis other than `axis`, from `j` on, along which `s` differs from
/// `base`: the axis, the size in `s`, and the size in `base`.
pub open spec fn first_mismatch_from(s: Seq<usize>, base: Seq<usize>, axis: int, j: int) -> Option<
    (usize, usize, usize),
>
    decreases s.len() - j,
{
    if j >= s.len() || j < 0 {
        None
    } else if j != axis && s[j] != base[j] {
        Some((j as usize, s[j], base[j]))
    } else {
        first_mismatch_from(s, base, axis, j + 1)
    }
}

/// Check of the arrays' shapes against the first one, in order, summing
/// their lengths along `axis` from `acc` on.
pub open spec fn concat_scan(shapes: Seq<Seq<usize>>, base: Seq<usize>, axis: int, acc: int) -> Result<
    int,
    ConcatError,
>
    decreases shapes.len(),
{
    if shapes.len() == 0 {
        Ok(acc)
    } else {
        let s = shapes[0];
        if s.len() != base.len() {
            Err(ConcatError::NdimMismatch)
        } else {
            match first_mismatch_from(s, base, axis, 0) {
                Some(m) => Err(ConcatError::DimMismatch { dim: m.0, size: m.1, expected: m.2 }),
                None => if acc + s[axis] > usize::MAX {
                    Err(ConcatError::Overflow)
                } else {
                    concat_scan(shapes.drop_first(), base, axis, acc + s[axis])
                },
            }
        }
    }
}

/// Shape of the concatenation of arrays of shapes `shapes` along `axis`.
pub open spec fn concat_result(shapes: Seq<Seq<usize>>, axis: int) -> Result<Seq<usize>, ConcatError> {
    if shapes.len() == 0 {
        Err(ConcatError::Empty)
    } else if axis >= shapes[0].len() {
        Err(ConcatError::AxisOutOfBounds { axis: axis as usize, ndim: shapes[0].len() as usize })
    } else {
        match concat_scan(shapes, shapes[0], axis, 0) {
            Err(e) => Err(e),
            Ok(total) => {
                let out = shapes[0].update(axis, total as usize);
                if valid_shape(out) {
                    Ok(out)
                } else {
                    Err(ConcatError::Overflow)
                }
            },
        }
    }
}

/// Position along `axis` at which array `i` starts in the concatenation.
pub open spec fn concat_offset(shapes: Seq<Seq<usize>>, axis: int, i: int) -> int
    decreases i,
{
    if i <= 0 {
        0
    } else {
        concat_offset(shapes, axis, i - 1) + shapes[i - 1][axis]
    }
}

/// Flat position of the concatenation (of shape `out`) that element `flat`
/// of array `i` lands on.
pub open spec fn concat_target(
    shapes: Seq<Seq<usize>>,
    out: Seq<usize>,
    axis: int,
    i: int,
    flat: int,
) -> int {
    let c = unravel(shapes[i], flat);
    ravel(out, c.update(axis, (c[axis] + concat_offset(shapes, axis, i)) as usize))
}

/// Result shape of a concatenation and, for each input array, the flat
/// positions of the result its elements land on (in the array's own
/// row-major order).
pub struct ConcatLayout {
    pub out_shape: Vec<usize>,
    pub targets: Vec<Vec<usize>>,
}

proof fn lemma_concat_scan_facts(shapes: Seq<Seq<usize>>, base: Seq<usize>, axis: int, acc: int)
    requires
        0 <= axis < base.len(),
        0 <= acc <= usize::MAX,
        concat_scan(shapes, base, axis, acc) is Ok,
    ensures
        forall|i: int| 0 <= i < shapes.len() ==> (#[trigger] shapes[i]).len() == base.len(),
        forall|i: int, j: int|
            0 <= i < shapes.len() && 0 <= j < base.len() && j != axis ==> #[trigger] shapes[i][j]
                == base[j],
        concat_scan(shapes, base, axis, acc) matches Ok(t) && t == acc + concat_offset(
            shapes,
            axis,
            shapes.len() as int,
        ) && t <= usize::MAX,
        forall|i: int|
            0 <= i <= shapes.len() ==> acc + #[trigger] concat_offset(shapes, axis, i) <= usize::MAX,
    decreases shapes.len(),
{
    if shapes.len() == 0 {
        assert(concat_offset(shapes, axis, 0) == 0);
    } else {
        let s = shapes[0];
        let rest = shapes.drop_first();
        let acc2 = acc + s[axis];
        assert(s.len() == base.len());
        assert(first_mismatch_from(s, base, axis, 0) is None);
        assert(acc2 <= usize::MAX);
        assert(concat_scan(shapes, base, axis, acc) == concat_scan(rest, base, axis, acc2));
        lemma_first_mismatch_none(s, base, axis, 0);
        lemma_concat_scan_facts(rest, base, axis, acc2);
        assert forall|i: int| 0 <= i < shapes.len() implies (#[trigger] shapes[i]).len() == base.len() by {
            if i > 0 {
                assert(shapes[i] == rest[i - 1]);
            }
        }
        assert forall|i: int, j: int|
            0 <= i < shapes.len() && 0 <= j < base.len() && j != axis implies #[trigger] shapes[i][j]
                == base[j] by {
            if i > 0 {
                assert(shapes[i] == rest[i - 1]);
            }
        }
        lemma_offset_step(shapes, axis, shapes.len() as int);
        assert forall|i: int| 0 <= i <= shapes.len() implies acc + #[trigger] concat_offset(
            shapes,
            axis,
            i,
        ) <= usize::MAX by {
            if i >= 1 {
                lemma_offset_step(shapes, axis, i);
                assert(acc2 + concat_offset(rest, axis, i - 1) <= usize::MAX);
            } else {
                assert(concat_offset(rest, axis, 0) == 0);
                assert(acc2 + concat_offset(rest, axis, 0) <= usize::MAX);
            }
        }
    }
}

proof fn lemma_offset_step(shapes: Seq<Seq<usize>>, axis: int, i: int)
    requires
        shapes.len() > 0,
        1 <= i <= shapes.len(),
    ensures
        concat_offset(shapes, axis, i) == shapes[0][axis] + concat_offset(shapes.drop_first(), axis, i - 1),
    decreases i,
{
    if i > 1 {
        lemma_offset_step(shapes, axis, i - 1);
        assert(shapes.drop_first()[i - 2] == shapes[i - 1]);
    } else {
        assert(concat_offset(shapes, axis, 0) == 0);
        assert(concat_offset(shapes.drop_first(), axis, 0) == 0);
    }
}

proof fn lemma_offset_monotone(shapes: Seq<Seq<usize>>, axis: int, i: int, j: int)
    requires
        0 <= i <= j <= shapes.len(),
    ensures
        concat_offset(shapes, axis, i) <= concat_offset(shapes, axis, j),
    decreases j - i,
{
    if i < j {
        lemma_offset_monotone(shapes, axis, i, j - 1);
    }
}

proof fn lemma_first_mismatch_none(s: Seq<usize>, base: Seq<usize>, axis: int, j: int)
    requires
        0 <= j,
        first_mismatch_from(s, base, axis, j) is None,
    ensures
        forall|t: int| j <= t < s.len() && t != axis ==> #[trigger] s[t] == base[t],
    decreases s.len() - j,
{
    if j < s.len() {
        lemma_first_mismatch_none(s, base, axis, j + 1);
    }
}

/// Check the shapes of arrays to concatenate along `axis` and lay out the
/// result.
pub fn concatenate_layout(shapes: &[&[usize]], axis: usize) -> (r: Result<ConcatLayout, ConcatError>)
    requires
        forall|i: int| 0 <= i < shapes.len() ==> valid_shape(#[trigger] shapes@[i]@),
    ensures
        r matches Err(e) ==> concat_result(shapes@.map_values(|s: &[usize]| s@), axis as int) == Err::<
            Seq<usize>,
            ConcatError,
        >(e),
        r matches Ok(l) ==> concat_result(shapes@.map_values(|s: &[usize]| s@), axis as int) == Ok::<
            Seq<usize>,
            ConcatError,
        >(l.out_shape@),
        r matches Ok(l) ==> l.targets.len() == shapes.len() && forall|i: int|
            0 <= i < shapes.len() ==> (#[trigger] l.targets@[i]).len() == shape_size(shapes@[i]@)
                && forall|f: int|
                0 <= f < l.targets@[i].len() ==> #[trigger] l.targets@[i]@[f] == concat_target(
                    shapes@.map_values(|s: &[usize]| s@),
                    l.out_shape@,
                    axis as int,
                    i,
                    f,
                ) && l.targets@[i]@[f] < shape_size(l.out_shape@),
{
    let ghost views = shapes@.map_values(|s: &[usize]| s@);
    let n = shapes.len();
    if n == 0 {
        return Err(ConcatError::Empty);
    }
    let base: &[usize] = shapes[0];
    let ndim = base.len();
    assert(views[0] == base@);
    if axis >= ndim {
        return Err(ConcatError::AxisOutOfBounds { axis, ndim });
    }
    let mut total: usize = 0;
    proof {
        assert(views.skip(0) =~= views);
    }
    for i in 0..n
        invariant
            n == shapes.len(),
            n > 0,
            views == shapes@.map_values(|s: &[usize]| s@),
            base@ == views[0],
            ndim == base.len(),
            axis < ndim,
            concat_scan(views, views[0], axis as int, 0) == concat_scan(
                views.skip(i as int),
                views[0],
                axis as int,
                total as int,
            ),
    {
        let s: &[usize] = shapes[i];
        proof {
            assert(views.skip(i as int).drop_first() =~= views.skip(i + 1));
            assert(views.skip(i as int)[0] == s@);
        }
        if s.len() != ndim {
            return Err(ConcatError::NdimMismatch);
        }
        for j in 0..ndim
            invariant
                ndim == base.len(),
                s.len() == ndim,
                axis < ndim,
                n == shapes.len(),
                n > 0,
                views == shapes@.map_values(|s: &[usize]| s@),
                base@ == views[0],
                views.skip(i as int)[0] == s@,
                views.skip(i as int).len() > 0,
                concat_scan(views, views[0], axis as int, 0) == concat_scan(
                    views.skip(i as int),
                    views[0],
                    axis as int,
                    total as int,
                ),
                first_mismatch_from(s@, base@, axis as int, 0) == first_mismatch_from(
                    s@,
                    base@,
                    axis as int,
                    j as int,
                ),
        {
            if j != axis && s[j] != base[j] {
                assert(first_mismatch_from(s@, base@, axis as int, j as int) == Some(
                    (j, s@[j as int], base@[j as int]),
                ));
                return Err(ConcatError::DimMismatch { dim: j, size: s[j], expected: base[j] });
            }
        }
        match total.checked_add(s[axis]) {
            Some(t) => {
                total = t;
            },
            None => {
                return Err(ConcatError::Overflow);
            },
        }
    }
    proof {
        assert(views.skip(n as int) =~= Seq::<Seq<usize>>::empty());
        lemma_concat_scan_facts(views, views[0], axis as int, 0);
    }
    let mut out_shape: Vec<usize> = vstd::slice::slice_to_vec(base);
    out_shape.set(axis, total);
    assert(out_shape@ =~= views[0].update(axis as int, total));
    if !crate::shape::is_valid_shape(&out_shape) {
        return Err(ConcatError::Overflow);
    }
    let out_strides = compute_strides(&out_shape);
    let mut targets: Vec<Vec<usize>> = Vec::new();
    let mut off: usize = 0;
    for i in 0..n
        invariant
            n == shapes.len(),
            n > 0,
            views == shapes@.map_values(|s: &[usize]| s@),
            forall|i: int| 0 <= i < shapes.len() ==> valid_shape(#[trigger] shapes@[i]@),
            ndim == views[0].len(),
            axis < ndim,
            out_shape@ == views[0].update(axis as int, total),
            valid_shape(out_shape@),
            out_strides@ == row_major_strides(out_shape@),
            total == concat_offset(views, axis as int, n as int),
            off == concat_offset(views, axis as int, i as int),
            forall|i: int| 0 <= i < views.len() ==> (#[trigger] views[i]).len() == views[0].len(),
            forall|i: int, j: int|
                0 <= i < views.len() && 0 <= j < views[0].len() && j != axis ==> #[trigger] views[i][j]
                    == views[0][j],
            targets.len() == i,
            forall|t: int|
                0 <= t < i ==> (#[trigger] targets@[t]).len() == shape_size(shapes@[t]@) && forall|f: int|
                    0 <= f < targets@[t].len() ==> #[trigger] targets@[t]@[f] == concat_target(
                        views,
                        out_shape@,
                        axis as int,
                        t,
                        f,
                    ) && targets@[t]@[f] < shape_size(out_shape@),
    {
        let s: &[usize] = shapes[i];
        assert(views[i as int] == s@);
        proof {
            lemma_offset_monotone(views, axis as int, i + 1, n as int);
        }
        let size = size_of(s);
        let strides = compute_strides(s);
        let mut t: Vec<usize> = Vec::new();
        for f in 0..size
            invariant
                views == shapes@.map_values(|s: &[usize]| s@),
                views[i as int] == s@,
                valid_shape(s@),
                size == shape_size(s@),
                strides@ == row_major_strides(s@),
                ndim == views[0].len(),
                s.len() == ndim,
                axis < ndim,
                out_shape@ == views[0].update(axis as int, total),
                valid_shape(out_shape@),
                out_strides@ == row_major_strides(out_shape@),
                off == concat_offset(views, axis as int, i as int),
                off + s@[axis as int] <= total,
                forall|j: int| 0 <= j < ndim && j != axis ==> #[trigger] s@[j] == views[0][j],
                t.len() == f,
                forall|g: int|
                    0 <= g < f ==> #[trigger] t@[g] == concat_target(
                        views,
                        out_shape@,
                        axis as int,
                        i as int,
                        g,
                    ) && t@[g] < shape_size(out_shape@),
        {
            let mut c = unravel_index(s, &strides, f);
            let ghost c0 = c@;
            let v: usize = c[axis] + off;
            c.set(axis, v);
            proof {
                assert(c@ =~= c0.update(axis as int, (c0[axis as int] + off) as usize));
                assert forall|k: int| 0 <= k < ndim implies #[trigger] c@[k] < out_shape@[k] by {
                    assert(c0[k] < s@[k]);
                }
                lemma_ravel_bounds(out_shape@, c@);
            }
            let target = ravel_index(&out_shape, &out_strides, &c);
            t.push(target);
        }
        targets.push(t);
        off = off + s[axis];
    }
    Ok(ConcatLayout { out_shape, targets })
}

/// Concatenation gives every element of every input a place of its own: two
/// different elements (of one input or of two) never land on the same
/// position of the result, and each lands inside the result.
pub proof fn lemma_concat_targets_distinct(
    shapes: Seq<Seq<usize>>,
    axis: int,
    i: int,
    f: int,
    j: int,
    g: int,
)
    requires
        0 <= axis,
        concat_result(shapes, axis) is Ok,
        0 <= i < shapes.len(),
        0 <= j < shapes.len(),
        0 <= f < shape_size(shapes[i]),
        0 <= g < shape_size(shapes[j]),
        i != j || f != g,
    ensures
        ({
            let out = concat_result(shapes, axis)->Ok_0;
            &&& 0 <= concat_target(shapes, out, axis, i, f) < shape_size(out)
            &&& concat_target(shapes, out, axis, i, f) != concat_target(shapes, out, axis, j, g)
        }),
{
    let out = concat_result(shapes, axis)->Ok_0;
    lemma_concat_in_bounds(shapes, axis, i, f);
    lemma_concat_in_bounds(shapes, axis, j, g);
    let ci = unravel(shapes[i], f);
    let cj = unravel(shapes[j], g);
    let oi = concat_offset(shapes, axis, i);
    let oj = concat_offset(shapes, axis, j);
    let di = ci.update(axis, (ci[axis] + oi) as usize);
    let dj = cj.update(axis, (cj[axis] + oj) as usize);
    lemma_ravel_bounds(out, di);
    lemma_unravel_ravel(shapes[i], f);
    lemma_unravel_ravel(shapes[j], g);
    assert(ci[axis] < shapes[i][axis]);
    assert(cj[axis] < shapes[j][axis]);
    if ravel(out, di) == ravel(out, dj) {
        lemma_ravel_unravel(out, di);
        lemma_ravel_unravel(out, dj);
        assert(di == dj);
        assert(di[axis] == dj[axis]);
        assert(di[axis] == ci[axis] + oi);
        assert(dj[axis] == cj[axis] + oj);
        if i < j {
            lemma_offset_monotone(shapes, axis, i + 1, j);
            assert(false);
        } else if j < i {
            lemma_offset_monotone(shapes, axis, j + 1, i);
            assert(false);
        }
        assert(ci =~= cj) by {
            assert forall|k: int| 0 <= k < ci.len() implies ci[k] == cj[k] by {
                if k != axis {
                    assert(di[k] == ci[k]);
                    assert(dj[k] == cj[k]);
                }
            }
        }
        assert(false);
    }
}

/// The coordinates that element `f` of input `i` takes in the concatenation
/// lie inside the result's shape.
proof fn lemma_concat_in_bounds(shapes: Seq<Seq<usize>>, axis: int, i: int, f: int)
    requires
        0 <= axis,
        concat_result(shapes, axis) is Ok,
        0 <= i < shapes.len(),
        0 <= f < shape_size(shapes[i]),
    ensures
        ({
            let c = unravel(shapes[i], f);
            let o = concat_offset(shapes, axis, i);
            &&& in_bounds(shapes[i], c)
            &&& axis < shapes[i].len()
            &&& c[axis] < shapes[i][axis]
            &&& 0 <= o
            &&& c[axis] + o < concat_offset(shapes, axis, i + 1)
            &&& concat_offset(shapes, axis, i + 1) == o + shapes[i][axis]
            &&& concat_offset(shapes, axis, i + 1) <= usize::MAX
            &&& in_bounds(concat_result(shapes, axis)->Ok_0, c.update(axis, (c[axis] + o) as usize))
        }),
{
    let out = concat_result(shapes, axis)->Ok_0;
    let base = shapes[0];
    let n = shapes.len() as int;
    lemma_concat_scan_facts(shapes, base, axis, 0);
    assert(concat_scan(shapes, base, axis, 0) == Ok::<int, ConcatError>(concat_offset(shapes, axis, n)));
    assert(out == base.update(axis, concat_offset(shapes, axis, n) as usize));
    lemma_unravel_ravel(shapes[i], f);
    let c = unravel(shapes[i], f);
    let o = concat_offset(shapes, axis, i);
    assert(c[axis] < shapes[i][axis]);
    lemma_offset_monotone(shapes, axis, 0, i);
    lemma_offset_monotone(shapes, axis, i + 1, n);
    assert(concat_offset(shapes, axis, 0) == 0);
    assert(concat_offset(shapes, axis, i + 1) == o + shapes[i][axis]);
    assert(0 + concat_offset(shapes, axis, i + 1) <= usize::MAX);
    assert(0 + concat_offset(shapes, axis, n) <= usize::MAX);
    let d = c.update(axis, (c[axis] + o) as usize);
    assert forall|k: int| 0 <= k < out.len() implies #[trigger] d[k] < out[k] by {
        if k != axis {
            assert(shapes[i][k] == base[k]);
            assert(c[k] < shapes[i][k]);
        }
    }
}

/// Total number of elements of the first `n` arrays.
pub open spec fn sizes_sum(shapes: Seq<Seq<usize>>, n: int) -> int
    decreases n,
{
    if n <= 0 {
        0
    } else {
        sizes_sum(shapes, n - 1) + shape_size(shapes[n - 1])
    }
}

/// Concatenation neither drops nor adds elements: the result holds exactly
/// as many elements as the inputs together (with the previous law, the
/// inputs' elements fill the result one to one).
pub proof fn lemma_concat_size(shapes: Seq<Seq<usize>>, axis: int)
    requires
        0 <= axis,
        concat_result(shapes, axis) is Ok,
    ensures
        shape_size(concat_result(shapes, axis)->Ok_0) == sizes_sum(shapes, shapes.len() as int),
{
    let out = concat_result(shapes, axis)->Ok_0;
    let base = shapes[0];
    let n = shapes.len() as int;
    lemma_concat_scan_facts(shapes, base, axis, 0);
    assert(concat_scan(shapes, base, axis, 0) == Ok::<int, ConcatError>(concat_offset(shapes, axis, n)));
    let total = concat_offset(shapes, axis, n);
    assert(out == base.update(axis, total as usize));
    let p = shape_size(base.take(axis)) as int;
    let q = shape_size(base.skip(axis + 1)) as int;
    lemma_size_split(out, axis);
    lemma_size_skip_step(out, axis);
    assert(out.take(axis) =~= base.take(axis));
    assert(out.skip(axis + 1) =~= base.skip(axis + 1));
    assert(0 + total <= usize::MAX);
    lemma_offset_monotone(shapes, axis, 0, n);
    assert(concat_offset(shapes, axis, 0) == 0);
    assert(axis < base.len());
    assert(out[axis] == total);
    lemma_sizes_sum_prefix(shapes, axis, n, p, q);
    assert(shape_size(out) == p * (total * q)) by (nonlinear_arith)
        requires
            shape_size(out) == shape_size(out.take(axis)) * shape_size(out.skip(axis)),
            shape_size(out.skip(axis)) == out[axis] * shape_size(out.skip(axis + 1)),
            shape_size(out.take(axis)) == p,
            shape_size(out.skip(axis + 1)) == q,
            out[axis] == total,
    ;
}

proof fn lemma_sizes_sum_prefix(shapes: Seq<Seq<usize>>, axis: int, m: int, p: int, q: int)
    requires
        0 <= axis,
        concat_result(shapes, axis) is Ok,
        0 <= m <= shapes.len(),
        p == shape_size(shapes[0].take(axis)),
        q == shape_size(shapes[0].skip(axis + 1)),
    ensures
        sizes_sum(shapes, m) == p * (concat_offset(shapes, axis, m) * q),
    decreases m,
{
    let base = shapes[0];
    if m == 0 {
        assert(concat_offset(shapes, axis, 0) == 0);
        assert(p * (0 * q) == 0) by (nonlinear_arith);
    } else {
        lemma_sizes_sum_prefix(shapes, axis, m - 1, p, q);
        let s = shapes[m - 1];
        lemma_concat_scan_facts(shapes, base, axis, 0);
        assert(s.len() == base.len());
        assert(s.take(axis) =~= base.take(axis)) by {
            assert forall|k: int| 0 <= k < axis implies s[k] == base[k] by {
                assert(s[k] == base[k]);
            }
        }
        assert(s.skip(axis + 1) =~= base.skip(axis + 1)) by {
            assert forall|k: int| 0 <= k < s.len() - (axis + 1) implies #[trigger] s.skip(axis + 1)[k]
                == base.skip(axis + 1)[k] by {
                assert(s[axis + 1 + k] == base[axis + 1 + k]);
            }
        }
        lemma_size_split(s, axis);
        lemma_size_skip_step(s, axis);
        let a = concat_offset(shapes, axis, m - 1);
        let d = s[axis] as int;
        assert(concat_offset(shapes, axis, m) == a + d);
        assert(p * ((a + d) * q) == p * (a * q) + p * (d * q)) by (nonlinear_arith);
        assert(shape_size(s) == p * (d * q)) by (nonlinear_arith)
            requires
                shape_size(s) == shape_size(s.take(axis)) * shape_size(s.skip(axis)),
                shape_size(s.skip(axis)) == d * shape_size(s.skip(axis + 1)),
                shape_size(s.take(axis)) == p,
                shape_size(s.skip(axis + 1)) == q,
        ;
    }
}

/// Shapes of the pieces that splitting an array of shape `shape` at
/// `indices` along `axis` produces.
pub open spec fn split_pieces(shape: Seq<usize>, indices: Seq<usize>, axis: int) -> Seq<Seq<usize>> {
    let b = split_bounds(indices, shape[axis]);
    Seq::new(indices.len() + 1, |k: int| shape.update(axis, (b[k + 1] - b[k]) as usize))
}

/// Splitting is undone by concatenating: the pieces of a split concatenate
/// back along the same axis into the array's shape, and every element of a
/// piece lands on the very position it was read from.
pub proof fn lemma_split_concat_roundtrip(
    shape: Seq<usize>,
    indices: Seq<usize>,
    axis: int,
    t: int,
    f: int,
)
    requires
        valid_shape(shape),
        0 <= axis < shape.len(),
        first_bad_split(indices, shape[axis] as int) is None,
        bounds_ordered(split_bounds(indices, shape[axis])),
        0 <= t <= indices.len(),
        0 <= f < shape_size(split_pieces(shape, indices, axis)[t]),
    ensures
        concat_result(split_pieces(shape, indices, axis), axis) == Ok::<Seq<usize>, ConcatError>(
            shape,
        ),
        ({
            let b = split_bounds(indices, shape[axis]);
            concat_target(split_pieces(shape, indices, axis), shape, axis, t, f) == range_source(
                shape,
                axis,
                b[t] as int,
                b[t + 1] - b[t],
                f,
            )
        }),
{
    let b = split_bounds(indices, shape[axis]);
    let pieces = split_pieces(shape, indices, axis);
    let m = indices.len() as int;
    let dim = shape[axis];
    lemma_split_bounds_range(indices, dim, axis, shape);
    lemma_split_offsets(shape, indices, axis, m + 1);
    lemma_split_offsets(shape, indices, axis, t);
    let base = pieces[0];
    assert(base.len() == shape.len());
    lemma_split_scan(shape, indices, axis, 0);
    assert(pieces.skip(0) =~= pieces);
    assert(base.update(axis, dim) =~= shape);
    assert(concat_offset(pieces, axis, m + 1) == dim);
}

/// The bounds of a valid split stay within the axis.
proof fn lemma_split_bounds_range(indices: Seq<usize>, dim: usize, axis: int, shape: Seq<usize>)
    requires
        bounds_ordered(split_bounds(indices, dim)),
    ensures
        split_bounds(indices, dim).len() == indices.len() + 2,
        split_bounds(indices, dim)[0] == 0,
        split_bounds(indices, dim)[indices.len() + 1 as int] == dim,
        forall|k: int|
            0 <= k < indices.len() + 2 ==> #[trigger] split_bounds(indices, dim)[k] <= dim,
{
    let b = split_bounds(indices, dim);
    let n = indices.len() + 2;
    assert forall|k: int| 0 <= k < n implies #[trigger] b[k] <= dim by {
        lemma_bounds_ordered_upto(b, k, n - 1);
    }
}

proof fn lemma_bounds_ordered_upto(b: Seq<usize>, k: int, j: int)
    requires
        bounds_ordered(b),
        0 <= k <= j < b.len(),
    ensures
        b[k] <= b[j],
    decreases j - k,
{
    if k < j {
        lemma_bounds_ordered_upto(b, k, j - 1);
        assert(b[j - 1] <= b[j]);
    }
}

/// The pieces of a split start where the split bounds say.
proof fn lemma_split_offsets(shape: Seq<usize>, indices: Seq<usize>, axis: int, k: int)
    requires
        0 <= axis < shape.len(),
        bounds_ordered(split_bounds(indices, shape[axis])),
        0 <= k <= indices.len() + 1,
    ensures
        concat_offset(split_pieces(shape, indices, axis), axis, k) == split_bounds(
            indices,
            shape[axis],
        )[k],
    decreases k,
{
    let b = split_bounds(indices, shape[axis]);
    let pieces = split_pieces(shape, indices, axis);
    if k == 0 {
        assert(b[0] == 0);
    } else {
        lemma_split_offsets(shape, indices, axis, k - 1);
        assert(b[k - 1] <= b[k]);
        assert(pieces[k - 1][axis] == b[k] - b[k - 1]);
    }
}

/// Shapes that agree off `axis` show no mismatch.
proof fn lemma_no_mismatch(s: Seq<usize>, base: Seq<usize>, axis: int, j: int)
    requires
        s.len() == base.len(),
        0 <= j,
        forall|k: int| 0 <= k < s.len() && k != axis ==> #[trigger] s[k] == base[k],
    ensures
        first_mismatch_from(s, base, axis, j) is None,
    decreases s.len() - j,
{
    if j < s.len() {
        lemma_no_mismatch(s, base, axis, j + 1);
    }
}

/// Scanning the pieces of a split from piece `k` on, having summed the
/// lengths before it, reaches the axis length.
proof fn lemma_split_scan(shape: Seq<usize>, indices: Seq<usize>, axis: int, k: int)
    requires
        0 <= axis < shape.len(),
        bounds_ordered(split_bounds(indices, shape[axis])),
        0 <= k <= indices.len() + 1,
    ensures
        concat_scan(
            split_pieces(shape, indices, axis).skip(k),
            split_pieces(shape, indices, axis)[0],
            axis,
            split_bounds(indices, shape[axis])[k] as int,
        ) == Ok::<int, ConcatError>(shape[axis] as int),
    decreases indices.len() + 1 - k,
{
    let b = split_bounds(indices, shape[axis]);
    let pieces = split_pieces(shape, indices, axis);
    let base = pieces[0];
    let m = indices.len() as int;
    lemma_split_bounds_range(indices, shape[axis], axis, shape);
    let rest = pieces.skip(k);
    if k == m + 1 {
        assert(rest.len() == 0);
    } else {
        lemma_split_scan(shape, indices, axis, k + 1);
        let s = rest[0];
        assert(s == pieces[k]);
        assert(b[k] <= b[k + 1]);
        assert(s[axis] == b[k + 1] - b[k]);
        assert forall|j: int| 0 <= j < s.len() && j != axis implies #[trigger] s[j] == base[j] by {
            assert(s[j] == shape[j]);
            assert(base[j] == shape[j]);
        }
        lemma_no_mismatch(s, base, axis, 0);
        assert(rest.drop_first() =~= pieces.skip(k + 1));
    }
}

/// Shapes of the arrays to stack along a new axis `axis`: each with a new
/// axis of length 1 inserted there (stacking is concatenating these).
pub fn stack_shapes(shapes: &[&[usize]], axis: usize) -> (r: Result<Vec<Vec<usize>>, ConcatError>)
    ensures
        shapes.len() == 0 <==> r matches Err(ConcatError::Empty),
        shapes.len() > 0 && axis > shapes@[0]@.len() <==> r matches Err(ConcatError::AxisOutOfBounds { .. }),
        r matches Err(ConcatError::AxisOutOfBounds { axis: a, ndim }) ==> a == axis && ndim
            == shapes@[0]@.len(),
        shapes.len() > 0 && axis <= shapes@[0]@.len() ==> (r matches Err(ConcatError::NdimMismatch)
            <==> exists|i: int| 0 <= i < shapes.len() && axis > (#[trigger] shapes@[i]@).len()),
        r matches Err(e) ==> e is Empty || e is AxisOutOfBounds || e is NdimMismatch,
        r matches Ok(v) ==> v.len() == shapes.len() && forall|i: int|
            0 <= i < shapes.len() ==> (#[trigger] v@[i])@ == shapes@[i]@.insert(axis as int, 1usize),
{
    let n = shapes.len();
    if n == 0 {
        return Err(ConcatError::Empty);
    }
    if axis > shapes[0].len() {
        return Err(ConcatError::AxisOutOfBounds { axis, ndim: shapes[0].len() });
    }
    let mut out: Vec<Vec<usize>> = Vec::new();
    for i in 0..n
        invariant
            n == shapes.len(),
            n > 0,
            axis <= shapes@[0]@.len(),
            out.len() == i,
            forall|t: int| 0 <= t < i ==> axis <= (#[trigger] shapes@[t]@).len(),
            forall|t: int|
                0 <= t < i ==> (#[trigger] out@[t])@ == shapes@[t]@.insert(axis as int, 1usize),
    {
        let s: &[usize] = shapes[i];
        if axis > s.len() {
            return Err(ConcatError::NdimMismatch);
        }
        let mut v: Vec<usize> = vstd::slice::slice_to_vec(s);
        v.insert(axis, 1);
        out.push(v);
    }
    Ok(out)
}

/// How two operands of a matrix product combine.
#[derive(Debug, PartialEq, Eq, Structural)]
pub enum ProductKind {
    /// NumPy `dot`. For operands of one or two dimensions it gives the same
    /// shapes as `matmul`: a vector times a matrix is a vector.
    Dot,
    /// NumPy `matmul`: vectors are promoted and the promotion removed again.
    Matmul,
}

/// The product to compute: an inner product of two vectors of length `k`,
/// or an `m x k` by `k x n` matrix product whose result has shape `out_shape`.
pub enum ProductPlan {
    Inner { k: usize },
    Matrix { m: usize, k: usize, n: usize, out_shape: Vec<usize> },
}

/// Why two operands cannot be multiplied.
#[derive(Debug, PartialEq, Eq, Structural)]
pub enum ProductError {
    /// The inner dimensions differ.
    NotAligned,
    /// Only 1- and 2-dimensional operands are supported.
    Unsupported { da: usize, db: usize },
}

/// Plan a NumPy-style `dot` or `matmul` of operands of shapes `a` and `b`
/// (1D·1D is an inner product, 2D·1D a matrix-vector product, 1D·2D a
/// vector-matrix product, 2D·2D a matrix product). On such operands `dot`
/// and `matmul` agree, so `_kind` does not change the plan.
pub fn product_plan(a: &[usize], b: &[usize], _kind: ProductKind) -> (r: Result<ProductPlan, ProductError>)
    ensures
        !((a.len() == 1 || a.len() == 2) && (b.len() == 1 || b.len() == 2)) <==> r matches Err(
            ProductError::Unsupported { .. },
        ),
        r matches Err(ProductError::Unsupported { da, db }) ==> da == a.len() && db == b.len(),
        a.len() == 1 && b.len() == 1 ==> (if a@[0] == b@[0] {
            r matches Ok(ProductPlan::Inner { k }) && k == a@[0]
        } else {
            r matches Err(ProductError::NotAligned)
        }),
        a.len() == 2 && b.len() == 1 ==> (if a@[1] == b@[0] {
            r matches Ok(ProductPlan::Matrix { m, k, n, out_shape }) && m == a@[0] && k == a@[1] && n
                == 1 && out_shape@ == seq![a@[0]]
        } else {
            r matches Err(ProductError::NotAligned)
        }),
        a.len() == 1 && b.len() == 2 ==> (if a@[0] == b@[0] {
            r matches Ok(ProductPlan::Matrix { m, k, n, out_shape }) && m == 1 && k == b@[0] && n
                == b@[1] && out_shape@ == seq![b@[1]]
        } else {
            r matches Err(ProductError::NotAligned)
        }),
        a.len() == 2 && b.len() == 2 ==> (if a@[1] == b@[0] {
            r matches Ok(ProductPlan::Matrix { m, k, n, out_shape }) && m == a@[0] && k == a@[1] && n
                == b@[1] && out_shape@ == seq![a@[0], b@[1]]
        } else {
            r matches Err(ProductError::NotAligned)
        }),
{
    let da = a.len();
    let db = b.len();
    if da == 1 && db == 1 {
        if a[0] != b[0] {
            return Err(ProductError::NotAligned);
        }
        Ok(ProductPlan::Inner { k: a[0] })
    } else if da == 2 && db == 1 {
        if a[1] != b[0] {
            return Err(ProductError::NotAligned);
        }
        let out_shape: Vec<usize> = vec![a[0]];
        Ok(ProductPlan::Matrix { m: a[0], k: a[1], n: 1, out_shape })
    } else if da == 1 && db == 2 {
        if a[0] != b[0] {
            return Err(ProductError::NotAligned);
        }
        let out_shape: Vec<usize> = vec![b[1]];
        Ok(ProductPlan::Matrix { m: 1, k: b[0], n: b[1], out_shape })
    } else if da == 2 && db == 2 {
        if a[1] != b[0] {
            return Err(ProductError::NotAligned);
        }
        let out_shape: Vec<usize> = vec![a[0], b[1]];
        Ok(ProductPlan::Matrix { m: a[0], k: a[1], n: b[1], out_shape })
    } else {
        Err(ProductError::Unsupported { da, db })
    }
}

} // verus!
