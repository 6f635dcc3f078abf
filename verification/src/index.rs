//! NumPy-style indexing: slices, integer, list and mask selections, and the
//! flat positions a selection reads or writes.

use vstd::prelude::*;
use crate::shape::{
    checked_size, compute_strides, lemma_positive_size_suffixes, lemma_ravel_bounds,
    lemma_ravel_unravel, lemma_unravel_ravel,
    lemma_valid_shape_size, prefix_products_fit, ravel, ravel_index, row_major_strides, shape_size,
    unravel, unravel_index, valid_shape, in_bounds,
};

verus! {

/// Why an index expression was refused.
#[derive(Debug, PartialEq, Eq, Structural)]
pub enum IndexError {
    /// A slice step of zero.
    ZeroStep,
    /// Walking the slice would overflow `isize`.
    SliceOverflow,
    /// More than one `...` in the index.
    MultipleEllipsis,
    /// More real indices than the array has axes.
    TooManyIndices { ndim: usize, given: usize },
    /// An integer index outside its axis.
    OutOfBounds { index: isize, axis: usize, size: usize },
    /// A boolean mask whose length differs from its axis.
    MaskLength { axis: usize, size: usize, mask_len: usize },
}

/// Position that a possibly negative index designates on an axis of length
/// `n` (negative indices count from the end).
pub open spec fn norm_index(i: isize, n: int) -> int {
    if i < 0 {
        n + i
    } else {
        i as int
    }
}

/// First position of a slice: clamped to `[0, n]` for a forward step and to
/// `[-1, n - 1]` for a backward step.
pub open spec fn slice_start(start: Option<isize>, step: int, n: int) -> int {
    if step > 0 {
        match start {
            Some(v) => if v < 0 {
                if v + n > 0 { v + n } else { 0 }
            } else {
                if v < n { v as int } else { n }
            },
            None => 0,
        }
    } else {
        match start {
            Some(v) => if v < 0 {
                if v + n > -1 { v + n } else { -1 }
            } else {
                if v < n - 1 { v as int } else { n - 1 }
            },
            None => n - 1,
        }
    }
}

/// Bound (exclusive) of a slice, clamped like its first position.
pub open spec fn slice_stop(stop: Option<isize>, step: int, n: int) -> int {
    if step > 0 {
        match stop {
            Some(v) => if v < 0 {
                if v + n > 0 { v + n } else { 0 }
            } else {
                if v < n { v as int } else { n }
            },
            None => n,
        }
    } else {
        match stop {
            Some(v) => if v < 0 {
                if v + n > -1 { v + n } else { -1 }
            } else {
                if v < n - 1 { v as int } else { n - 1 }
            },
            None => -1,
        }
    }
}

/// Number of positions `s, s + step, ...` strictly before `e` (in the
/// direction of `step`).
pub open spec fn slice_count(s: int, e: int, step: int) -> int {
    if step > 0 {
        if s < e {
            (e - s - 1) / step + 1
        } else {
            0
        }
    } else if step < 0 {
        if s > e {
            (s - e - 1) / (-step) + 1
        } else {
            0
        }
    } else {
        0
    }
}

/// The step a slice walks with (1 when absent).
pub open spec fn slice_step(step: Option<isize>) -> int {
    match step {
        Some(v) => v as int,
        None => 1,
    }
}

/// Positions a slice selects on an axis of length `n`.
pub open spec fn slice_positions(
    start: Option<isize>,
    stop: Option<isize>,
    step: Option<isize>,
    n: int,
) -> Seq<usize> {
    let st = slice_step(step);
    let s = slice_start(start, st, n);
    let e = slice_stop(stop, st, n);
    Seq::new(slice_count(s, e, st) as nat, |i: int| (s + i * st) as usize)
}

/// Walking the slice to its end never leaves the range of `isize`.
pub open spec fn slice_walk_fits(
    start: Option<isize>,
    stop: Option<isize>,
    step: Option<isize>,
    n: int,
) -> bool {
    let st = slice_step(step);
    let s = slice_start(start, st, n);
    let e = slice_stop(stop, st, n);
    isize::MIN <= s + slice_count(s, e, st) * st <= isize::MAX
}

/// For a forward step, a position `s + i * step` lies before `e` exactly for
/// the first `slice_count` values of `i`.
proof fn lemma_slice_count_forward(s: int, e: int, step: int, i: int)
    requires
        step > 0,
        i >= 0,
    ensures
        (s + i * step < e) <==> (i < slice_count(s, e, step)),
{
    if s < e {
        let x = e - s - 1;
        let q = x / step;
        vstd::arithmetic::div_mod::lemma_fundamental_div_mod(x, step);
        vstd::arithmetic::div_mod::lemma_mod_pos_bound(x, step);
        if i <= q {
            vstd::arithmetic::mul::lemma_mul_inequality(i, q, step);
            assert(i * step <= q * step);
            assert(q * step == step * q) by (nonlinear_arith);
        } else {
            vstd::arithmetic::mul::lemma_mul_inequality(q + 1, i, step);
            assert((q + 1) * step == step * q + step) by (nonlinear_arith);
        }
    } else {
        vstd::arithmetic::mul::lemma_mul_nonnegative(i, step);
    }
}

/// For a backward step, a position `s + i * step` lies after `e` exactly for
/// the first `slice_count` values of `i`.
proof fn lemma_slice_count_backward(s: int, e: int, step: int, i: int)
    requires
        step < 0,
        i >= 0,
    ensures
        (s + i * step > e) <==> (i < slice_count(s, e, step)),
{
    let d = -step;
    assert(i * step == -(i * d)) by (nonlinear_arith)
        requires
            d == -step,
    ;
    if s > e {
        let x = s - e - 1;
        let q = x / d;
        vstd::arithmetic::div_mod::lemma_fundamental_div_mod(x, d);
        vstd::arithmetic::div_mod::lemma_mod_pos_bound(x, d);
        if i <= q {
            vstd::arithmetic::mul::lemma_mul_inequality(i, q, d);
            assert(q * d == d * q) by (nonlinear_arith);
        } else {
            vstd::arithmetic::mul::lemma_mul_inequality(q + 1, i, d);
            assert((q + 1) * d == d * q + d) by (nonlinear_arith);
        }
    } else {
        vstd::arithmetic::mul::lemma_mul_nonnegative(i, d);
    }
}

/// The positions `s, s + step, ...` strictly before `e`, walking forward.
fn walk_forward(s: isize, e: isize, step: isize, dim: usize) -> (out: Result<Vec<usize>, IndexError>)
    requires
        step > 0,
        0 <= s <= dim,
        e <= dim,
    ensures
        out matches Ok(v) ==> v@ == Seq::new(
            slice_count(s as int, e as int, step as int) as nat,
            |i: int| (s + i * step) as usize,
        ),
        out matches Ok(v) ==> forall|i: int| 0 <= i < v.len() ==> #[trigger] v@[i] < dim,
        out matches Ok(_) <==> isize::MIN <= s + slice_count(s as int, e as int, step as int) * step
            <= isize::MAX,
        out matches Err(err) ==> err == IndexError::SliceOverflow,
{
    let ghost st = step as int;
    let ghost cnt = slice_count(s as int, e as int, st);
    let mut out: Vec<usize> = Vec::new();
    let mut cur: isize = s;
    assert(0 * st == 0);
    while cur < e
        invariant
            step == st,
            st > 0,
            0 <= s <= dim,
            e <= dim,
            cur == s + out.len() * st,
            cnt == slice_count(s as int, e as int, st),
            out.len() <= cnt,
            forall|i: int| 0 <= i < out.len() ==> #[trigger] out@[i] == (s + i * st) as usize,
            forall|i: int| 0 <= i < out.len() ==> #[trigger] out@[i] < dim,
        decreases cnt - out.len(),
    {
        proof {
            lemma_slice_count_forward(s as int, e as int, st, out.len() as int);
            assert(out.len() * st >= 0) by (nonlinear_arith)
                requires
                    st > 0,
            ;
        }
        out.push(cur as usize);
        assert((out.len() - 1) * st + st == out.len() * st) by (nonlinear_arith);
        match cur.checked_add(step) {
            Some(v) => {
                cur = v;
            },
            None => {
                proof {
                    lemma_slice_count_forward(s as int, e as int, st, out.len() as int);
                    if out.len() < cnt {
                        assert(s + out.len() * st < e);
                    }
                }
                return Err(IndexError::SliceOverflow);
            },
        }
    }
    proof {
        lemma_slice_count_forward(s as int, e as int, st, out.len() as int);
    }
    assert(out@ =~= Seq::new(cnt as nat, |i: int| (s + i * step) as usize));
    Ok(out)
}

/// The positions `s, s + step, ...` strictly after `e`, walking backward.
fn walk_backward(s: isize, e: isize, step: isize, dim: usize) -> (out: Result<
    Vec<usize>,
    IndexError,
>)
    requires
        step < 0,
        -1 <= s < dim,
        -1 <= e,
    ensures
        out matches Ok(v) ==> v@ == Seq::new(
            slice_count(s as int, e as int, step as int) as nat,
            |i: int| (s + i * step) as usize,
        ),
        out matches Ok(v) ==> forall|i: int| 0 <= i < v.len() ==> #[trigger] v@[i] < dim,
        out matches Ok(_) <==> isize::MIN <= s + slice_count(s as int, e as int, step as int) * step
            <= isize::MAX,
        out matches Err(err) ==> err == IndexError::SliceOverflow,
{
    let ghost st = step as int;
    let ghost cnt = slice_count(s as int, e as int, st);
    let mut out: Vec<usize> = Vec::new();
    let mut cur: isize = s;
    assert(0 * st == 0);
    while cur > e
        invariant
            step == st,
            st < 0,
            -1 <= s < dim,
            -1 <= e,
            cur == s + out.len() * st,
            cnt == slice_count(s as int, e as int, st),
            out.len() <= cnt,
            forall|i: int| 0 <= i < out.len() ==> #[trigger] out@[i] == (s + i * st) as usize,
            forall|i: int| 0 <= i < out.len() ==> #[trigger] out@[i] < dim,
        decreases cnt - out.len(),
    {
        proof {
            lemma_slice_count_backward(s as int, e as int, st, out.len() as int);
            assert(out.len() * st <= 0) by (nonlinear_arith)
                requires
                    st < 0,
            ;
        }
        out.push(cur as usize);
        assert((out.len() - 1) * st + st == out.len() * st) by (nonlinear_arith);
        match cur.checked_add(step) {
            Some(v) => {
                cur = v;
            },
            None => {
                proof {
                    lemma_slice_count_backward(s as int, e as int, st, out.len() as int);
                    if out.len() < cnt {
                        assert(s + out.len() * st > e);
                    }
                }
                return Err(IndexError::SliceOverflow);
            },
        }
    }
    proof {
        lemma_slice_count_backward(s as int, e as int, st, out.len() as int);
    }
    assert(out@ =~= Seq::new(cnt as nat, |i: int| (s + i * step) as usize));
    Ok(out)
}

/// Resolve a slice against an axis of length `dim` into the positions it
/// selects, in order. A zero step is refused; so is a slice whose walk would
/// overflow `isize`.
pub fn resolve_slice(start: Option<isize>, stop: Option<isize>, step: Option<isize>, dim: usize) -> (out:
    Result<Vec<usize>, IndexError>)
    requires
        dim <= isize::MAX,
    ensures
        slice_step(step) == 0 <==> out matches Err(IndexError::ZeroStep),
        (slice_step(step) != 0 && !slice_walk_fits(start, stop, step, dim as int)) <==> out matches Err(
            IndexError::SliceOverflow,
        ),
        out matches Err(err) ==> err == IndexError::ZeroStep || err == IndexError::SliceOverflow,
        out matches Ok(v) ==> v@ == slice_positions(start, stop, step, dim as int),
        out matches Ok(v) ==> forall|i: int| 0 <= i < v.len() ==> #[trigger] v@[i] < dim,
{
    let st: isize = match step {
        Some(v) => v,
        None => 1,
    };
    if st == 0 {
        return Err(IndexError::ZeroStep);
    }
    let n: isize = dim as isize;
    let (s, e): (isize, isize) = if st > 0 {
        let s: isize = match start {
            Some(v) => if v < 0 {
                if v + n > 0 { v + n } else { 0 }
            } else {
                if v < n { v } else { n }
            },
            None => 0,
        };
        let e: isize = match stop {
            Some(v) => if v < 0 {
                if v + n > 0 { v + n } else { 0 }
            } else {
                if v < n { v } else { n }
            },
            None => n,
        };
        (s, e)
    } else {
        let s: isize = match start {
            Some(v) => if v < 0 {
                if v + n > -1 { v + n } else { -1 }
            } else {
                if v < n - 1 { v } else { n - 1 }
            },
            None => n - 1,
        };
        let e: isize = match stop {
            Some(v) => if v < 0 {
                if v + n > -1 { v + n } else { -1 }
            } else {
                if v < n - 1 { v } else { n - 1 }
            },
            None => -1,
        };
        (s, e)
    };
    assert(s == slice_start(start, slice_step(step), dim as int));
    assert(e == slice_stop(stop, slice_step(step), dim as int));
    let r = if st > 0 {
        walk_forward(s, e, st, dim)
    } else {
        walk_backward(s, e, st, dim)
    };
    assert(r matches Ok(v) ==> v@ =~= slice_positions(start, stop, step, dim as int));
    r
}

/// One component of an index expression, as the caller parsed it.
pub enum IndexSpec {
    /// `None`: insert a new axis of length 1.
    NewAxis,
    /// `...`: all axes not otherwise indexed.
    Ellipsis,
    /// A single (possibly negative) integer; the axis is dropped.
    Int(isize),
    /// `start:stop:step`.
    Slice(Option<isize>, Option<isize>, Option<isize>),
    /// A boolean mask over the axis.
    Mask(Vec<bool>),
    /// A list of (possibly negative) integers.
    List(Vec<isize>),
}

/// Mathematical form of an [`IndexSpec`].
pub enum IndexSpecView {
    NewAxis,
    Ellipsis,
    Int(isize),
    Slice(Option<isize>, Option<isize>, Option<isize>),
    Mask(Seq<bool>),
    List(Seq<isize>),
}

impl View for IndexSpec {
    type V = IndexSpecView;

    open spec fn view(&self) -> IndexSpecView {
        match self {
            IndexSpec::NewAxis => IndexSpecView::NewAxis,
            IndexSpec::Ellipsis => IndexSpecView::Ellipsis,
            IndexSpec::Int(i) => IndexSpecView::Int(*i),
            IndexSpec::Slice(a, b, c) => IndexSpecView::Slice(*a, *b, *c),
            IndexSpec::Mask(m) => IndexSpecView::Mask(m@),
            IndexSpec::List(l) => IndexSpecView::List(l@),
        }
    }
}

/// One component of a resolved index, in positional order.
pub enum IndexComp {
    /// Selection along the next axis of the array: the positions taken, and
    /// whether the axis is dropped from the result (an integer index).
    Axis { idxs: Vec<usize>, is_int: bool },
    /// A new axis of length 1 at this position.
    NewAxis,
}

/// Mathematical form of an [`IndexComp`].
pub enum Selection {
    Axis(Seq<usize>, bool),
    NewAxis,
}

impl View for IndexComp {
    type V = Selection;

    open spec fn view(&self) -> Selection {
        match self {
            IndexComp::Axis { idxs, is_int } => Selection::Axis(idxs@, *is_int),
            IndexComp::NewAxis => Selection::NewAxis,
        }
    }
}

/// The spec consumes an axis of the array.
pub open spec fn is_real(s: IndexSpecView) -> bool {
    !(s is NewAxis) && !(s is Ellipsis)
}

/// Number of specs that consume an axis.
pub open spec fn real_count(specs: Seq<IndexSpecView>) -> nat
    decreases specs.len(),
{
    if specs.len() == 0 {
        0
    } else {
        (if is_real(specs[0]) {
            1nat
        } else {
            0nat
        }) + real_count(specs.drop_first())
    }
}

/// Number of `...` specs.
pub open spec fn ellipsis_count(specs: Seq<IndexSpecView>) -> nat
    decreases specs.len(),
{
    if specs.len() == 0 {
        0
    } else {
        (if specs[0] is Ellipsis {
            1nat
        } else {
            0nat
        }) + ellipsis_count(specs.drop_first())
    }
}

/// All positions of an axis of length `n`.
pub open spec fn full_range(n: usize) -> Seq<usize> {
    Seq::new(n as nat, |i: int| i as usize)
}

/// Full selections of the axes `from..to` of `shape`.
pub open spec fn full_axes(shape: Seq<usize>, from: int, to: int) -> Seq<Selection> {
    Seq::new((to - from) as nat, |i: int| Selection::Axis(full_range(shape[from + i]), false))
}

/// Positions where a mask is true, in order.
pub open spec fn mask_positions(mask: Seq<bool>) -> Seq<usize>
    decreases mask.len(),
{
    if mask.len() == 0 {
        Seq::empty()
    } else {
        let p = mask_positions(mask.drop_last());
        if mask.last() {
            p.push((mask.len() - 1) as usize)
        } else {
            p
        }
    }
}

/// The first entry of a list of indices that falls outside an axis of
/// length `n`, if any.
pub open spec fn first_out_of_bounds(list: Seq<isize>, n: int) -> Option<isize>
    decreases list.len(),
{
    if list.len() == 0 {
        None
    } else if !(0 <= norm_index(list[0], n) < n) {
        Some(list[0])
    } else {
        first_out_of_bounds(list.drop_first(), n)
    }
}

/// Resolution of one axis-consuming spec against axis `k` of `shape`.
pub open spec fn resolve_spec(shape: Seq<usize>, k: int, spec: IndexSpecView) -> Result<
    Selection,
    IndexError,
> {
    let n = shape[k] as int;
    match spec {
        IndexSpecView::Int(i) => if 0 <= norm_index(i, n) < n {
            Ok(Selection::Axis(seq![norm_index(i, n) as usize], true))
        } else {
            Err(IndexError::OutOfBounds { index: i, axis: k as usize, size: shape[k] })
        },
        IndexSpecView::Slice(a, b, c) => if slice_step(c) == 0 {
            Err(IndexError::ZeroStep)
        } else if !slice_walk_fits(a, b, c, n) {
            Err(IndexError::SliceOverflow)
        } else {
            Ok(Selection::Axis(slice_positions(a, b, c, n), false))
        },
        IndexSpecView::Mask(m) => if m.len() == n {
            Ok(Selection::Axis(mask_positions(m), false))
        } else {
            Err(IndexError::MaskLength { axis: k as usize, size: shape[k], mask_len: m.len() as usize })
        },
        IndexSpecView::List(l) => match first_out_of_bounds(l, n) {
            Some(v) => Err(IndexError::OutOfBounds { index: v, axis: k as usize, size: shape[k] }),
            None => Ok(Selection::Axis(l.map_values(|v: isize| norm_index(v, n) as usize), false)),
        },
        _ => Err(IndexError::ZeroStep),
    }
}

/// Put `prefix` in front of a successful resolution.
pub open spec fn prepend(prefix: Seq<Selection>, r: Result<Seq<Selection>, IndexError>) -> Result<
    Seq<Selection>,
    IndexError,
> {
    match r {
        Ok(rest) => Ok(prefix + rest),
        Err(e) => Err(e),
    }
}

/// Resolution of the specs in order, starting at axis `k`, with `fill` axes
/// standing for `...`; the axes left over at the end are taken whole. The
/// first spec that fails decides the error.
pub open spec fn resolve_from(shape: Seq<usize>, specs: Seq<IndexSpecView>, fill: int, k: int) -> Result<
    Seq<Selection>,
    IndexError,
>
    decreases specs.len(),
{
    if specs.len() == 0 {
        Ok(full_axes(shape, k, shape.len() as int))
    } else {
        match specs[0] {
            IndexSpecView::NewAxis => prepend(
                seq![Selection::NewAxis],
                resolve_from(shape, specs.drop_first(), fill, k),
            ),
            IndexSpecView::Ellipsis => prepend(
                full_axes(shape, k, k + fill),
                resolve_from(shape, specs.drop_first(), fill, k + fill),
            ),
            _ => match resolve_spec(shape, k, specs[0]) {
                Ok(c) => prepend(seq![c], resolve_from(shape, specs.drop_first(), fill, k + 1)),
                Err(e) => Err(e),
            },
        }
    }
}

/// Resolution of a whole index expression against `shape`.
pub open spec fn resolve_index(shape: Seq<usize>, specs: Seq<IndexSpecView>) -> Result<
    Seq<Selection>,
    IndexError,
> {
    if ellipsis_count(specs) > 1 {
        Err(IndexError::MultipleEllipsis)
    } else if real_count(specs) > shape.len() {
        Err(IndexError::TooManyIndices { ndim: shape.len() as usize, given: real_count(specs) as usize })
    } else {
        resolve_from(shape, specs, shape.len() - real_count(specs), 0)
    }
}

/// Position designated by a possibly negative index on an axis of length
/// `n`, or `None` when it falls outside the axis.
pub fn normalize_index(i: isize, n: usize) -> (r: Option<usize>)
    requires
        n <= isize::MAX,
    ensures
        r is Some <==> 0 <= norm_index(i, n as int) < n,
        r matches Some(a) ==> a == norm_index(i, n as int),
{
    let nn: isize = n as isize;
    let a: isize = if i < 0 {
        nn + i
    } else {
        i
    };
    if a < 0 || a >= nn {
        None
    } else {
        Some(a as usize)
    }
}

/// Positions where a mask is true, in order.
pub fn mask_to_positions(mask: &[bool]) -> (out: Vec<usize>)
    ensures
        out@ == mask_positions(mask@),
{
    let mut out: Vec<usize> = Vec::new();
    proof {
        assert(mask@.take(0) =~= Seq::<bool>::empty());
    }
    for i in 0..mask.len()
        invariant
            out@ == mask_positions(mask@.take(i as int)),
    {
        proof {
            assert(mask@.take(i + 1).drop_last() =~= mask@.take(i as int));
        }
        if mask[i] {
            out.push(i);
        }
    }
    proof {
        assert(mask@.take(mask.len() as int) =~= mask@);
    }
    out
}

/// All positions of an axis of length `n`.
pub fn full_range_vec(n: usize) -> (out: Vec<usize>)
    ensures
        out@ == full_range(n),
{
    let mut out: Vec<usize> = Vec::new();
    for i in 0..n
        invariant
            out.len() == i,
            forall|j: int| 0 <= j < i ==> #[trigger] out@[j] == j,
    {
        out.push(i);
    }
    assert(out@ =~= full_range(n));
    out
}

/// Normalized positions of a list of indices on an axis of length `n`, or
/// the first entry that falls outside the axis.
fn list_to_positions(list: &[isize], n: usize) -> (r: Result<Vec<usize>, isize>)
    requires
        n <= isize::MAX,
    ensures
        r matches Err(v) ==> first_out_of_bounds(list@, n as int) == Some(v),
        r matches Ok(p) ==> first_out_of_bounds(list@, n as int) is None && p@ == list@.map_values(
            |v: isize| norm_index(v, n as int) as usize,
        ),
{
    let mut out: Vec<usize> = Vec::new();
    proof {
        assert(list@.skip(0) =~= list@);
    }
    for i in 0..list.len()
        invariant
            n <= isize::MAX,
            out.len() == i,
            first_out_of_bounds(list@, n as int) == first_out_of_bounds(list@.skip(i as int), n as int),
            forall|j: int| 0 <= j < i ==> #[trigger] out@[j] == norm_index(list@[j], n as int) as usize,
    {
        proof {
            assert(list@.skip(i as int).drop_first() =~= list@.skip(i + 1));
            assert(list@.skip(i as int)[0] == list@[i as int]);
        }
        match normalize_index(list[i], n) {
            Some(a) => {
                out.push(a);
            },
            None => {
                return Err(list[i]);
            },
        }
    }
    proof {
        assert(list@.skip(list.len() as int) =~= Seq::<isize>::empty());
        assert(out@ =~= list@.map_values(|v: isize| norm_index(v, n as int) as usize));
    }
    Ok(out)
}

/// Resolve one axis-consuming spec against axis `k` of `shape`.
fn resolve_one(shape: &[usize], k: usize, spec: &IndexSpec) -> (r: Result<IndexComp, IndexError>)
    requires
        k < shape.len(),
        shape[k as int] <= isize::MAX,
        is_real(spec@),
    ensures
        r matches Ok(c) ==> resolve_spec(shape@, k as int, spec@) == Ok::<Selection, IndexError>(c@),
        r matches Err(e) ==> resolve_spec(shape@, k as int, spec@) == Err::<Selection, IndexError>(e),
{
    let n: usize = shape[k];
    match spec {
        IndexSpec::Int(i) => match normalize_index(*i, n) {
            Some(a) => {
                let v: Vec<usize> = vec![a];
                assert(v@ =~= seq![a]);
                Ok(IndexComp::Axis { idxs: v, is_int: true })
            },
            None => Err(IndexError::OutOfBounds { index: *i, axis: k, size: n }),
        },
        IndexSpec::Slice(a, b, c) => match resolve_slice(*a, *b, *c, n) {
            Ok(v) => Ok(IndexComp::Axis { idxs: v, is_int: false }),
            Err(e) => Err(e),
        },
        IndexSpec::Mask(m) => {
            if m.len() == n {
                Ok(IndexComp::Axis { idxs: mask_to_positions(m.as_slice()), is_int: false })
            } else {
                Err(IndexError::MaskLength { axis: k, size: n, mask_len: m.len() })
            }
        },
        IndexSpec::List(l) => match list_to_positions(l.as_slice(), n) {
            Ok(v) => Ok(IndexComp::Axis { idxs: v, is_int: false }),
            Err(v) => Err(IndexError::OutOfBounds { index: v, axis: k, size: n }),
        },
        IndexSpec::NewAxis => {
            assert(false);
            Err(IndexError::ZeroStep)
        },
        IndexSpec::Ellipsis => {
            assert(false);
            Err(IndexError::ZeroStep)
        },
    }
}

proof fn lemma_prepend_assoc(a: Seq<Selection>, b: Seq<Selection>, r: Result<Seq<Selection>, IndexError>)
    ensures
        prepend(a, prepend(b, r)) == prepend(a + b, r),
{
    match r {
        Ok(rest) => {
            assert(a + (b + rest) =~= (a + b) + rest);
        },
        Err(e) => {},
    }
}

proof fn lemma_counts_step(specs: Seq<IndexSpecView>, j: int)
    requires
        0 <= j < specs.len(),
    ensures
        specs.skip(j).drop_first() == specs.skip(j + 1),
        specs.skip(j)[0] == specs[j],
        real_count(specs.skip(j)) == (if is_real(specs[j]) {
            1nat
        } else {
            0nat
        }) + real_count(specs.skip(j + 1)),
        ellipsis_count(specs.skip(j)) == (if specs[j] is Ellipsis {
            1nat
        } else {
            0nat
        }) + ellipsis_count(specs.skip(j + 1)),
{
    assert(specs.skip(j).drop_first() =~= specs.skip(j + 1));
}

/// All dimensions of `shape` can be handled as `isize`.
pub open spec fn dims_fit_isize(shape: Seq<usize>) -> bool {
    forall|k: int| 0 <= k < shape.len() ==> #[trigger] shape[k] <= isize::MAX
}

/// Resolve an index expression against an array of shape `shape` into one
/// component per spec (`...` expanding to the axes it covers) followed by
/// the untouched trailing axes.
pub fn parse_index(shape: &[usize], specs: &[IndexSpec]) -> (r: Result<Vec<IndexComp>, IndexError>)
    requires
        dims_fit_isize(shape@),
    ensures
        r matches Ok(comps) ==> resolve_index(shape@, specs@.map_values(|s: IndexSpec| s@)) == Ok::<
            Seq<Selection>,
            IndexError,
        >(comps@.map_values(|c: IndexComp| c@)),
        r matches Err(e) ==> resolve_index(shape@, specs@.map_values(|s: IndexSpec| s@)) == Err::<
            Seq<Selection>,
            IndexError,
        >(e),
{
    let ghost sv = specs@.map_values(|s: IndexSpec| s@);
    let ndim = shape.len();
    let mut num_real: usize = 0;
    let mut num_ellipsis: usize = 0;
    proof {
        assert(sv.skip(0) =~= sv);
    }
    for j in 0..specs.len()
        invariant
            sv == specs@.map_values(|s: IndexSpec| s@),
            num_real + real_count(sv.skip(j as int)) == real_count(sv),
            num_ellipsis + ellipsis_count(sv.skip(j as int)) == ellipsis_count(sv),
            num_real <= j,
            num_ellipsis <= j,
    {
        proof {
            lemma_counts_step(sv, j as int);
        }
        match &specs[j] {
            IndexSpec::NewAxis => {},
            IndexSpec::Ellipsis => {
                num_ellipsis = num_ellipsis + 1;
            },
            _ => {
                num_real = num_real + 1;
            },
        }
    }
    proof {
        assert(sv.skip(specs.len() as int) =~= Seq::<IndexSpecView>::empty());
    }
    if num_ellipsis > 1 {
        return Err(IndexError::MultipleEllipsis);
    }
    if num_real > ndim {
        return Err(IndexError::TooManyIndices { ndim, given: num_real });
    }
    let fill: usize = ndim - num_real;
    let mut comps: Vec<IndexComp> = Vec::new();
    let mut k: usize = 0;
    for j in 0..specs.len()
        invariant
            sv == specs@.map_values(|s: IndexSpec| s@),
            ndim == shape.len(),
            dims_fit_isize(shape@),
            fill == ndim - real_count(sv),
            real_count(sv) <= ndim,
            ellipsis_count(sv) <= 1,
            ellipsis_count(sv.skip(j as int)) <= 1,
            k + real_count(sv.skip(j as int)) + ellipsis_count(sv.skip(j as int)) * fill <= ndim,
            ellipsis_count(sv.skip(j as int)) == 0 && ellipsis_count(sv) == 1 ==> k + real_count(
                sv.skip(j as int),
            ) <= ndim,
            resolve_from(shape@, sv, fill as int, 0) == prepend(
                comps@.map_values(|c: IndexComp| c@),
                resolve_from(shape@, sv.skip(j as int), fill as int, k as int),
            ),
    {
        proof {
            lemma_counts_step(sv, j as int);
        }
        let ghost before = comps@.map_values(|c: IndexComp| c@);
        match &specs[j] {
            IndexSpec::NewAxis => {
                comps.push(IndexComp::NewAxis);
                proof {
                    assert(comps@.map_values(|c: IndexComp| c@) =~= before + seq![Selection::NewAxis]);
                    lemma_prepend_assoc(
                        before,
                        seq![Selection::NewAxis],
                        resolve_from(shape@, sv.skip(j + 1), fill as int, k as int),
                    );
                }
            },
            IndexSpec::Ellipsis => {
                let ghost k0 = k;
                let mut t: usize = 0;
                while t < fill
                    invariant
                        sv == specs@.map_values(|s: IndexSpec| s@),
                        ndim == shape.len(),
                        k == k0 + t,
                        t <= fill,
                        k0 + fill <= ndim,
                        comps@.map_values(|c: IndexComp| c@) == before + full_axes(
                            shape@,
                            k0 as int,
                            k as int,
                        ),
                    decreases fill - t,
                {
                    let idxs = full_range_vec(shape[k]);
                    let ghost prev = comps@.map_values(|c: IndexComp| c@);
                    let ghost sel = Selection::Axis(full_range(shape[k as int]), false);
                    comps.push(IndexComp::Axis { idxs, is_int: false });
                    proof {
                        assert(comps@.map_values(|c: IndexComp| c@) =~= prev.push(sel));
                        assert(full_axes(shape@, k0 as int, k + 1) =~= full_axes(
                            shape@,
                            k0 as int,
                            k as int,
                        ).push(sel));
                        assert(before + full_axes(shape@, k0 as int, k + 1) =~= (before + full_axes(
                            shape@,
                            k0 as int,
                            k as int,
                        )).push(sel));
                    }
                    k = k + 1;
                    t = t + 1;
                }
                proof {
                    lemma_prepend_assoc(
                        before,
                        full_axes(shape@, k0 as int, k as int),
                        resolve_from(shape@, sv.skip(j + 1), fill as int, k as int),
                    );
                }
            },
            _ => {
                match resolve_one(shape, k, &specs[j]) {
                    Ok(c) => {
                        let ghost cv = c@;
                        comps.push(c);
                        k = k + 1;
                        proof {
                            assert(comps@.map_values(|c: IndexComp| c@) =~= before + seq![cv]);
                            lemma_prepend_assoc(
                                before,
                                seq![cv],
                                resolve_from(shape@, sv.skip(j + 1), fill as int, k as int),
                            );
                        }
                    },
                    Err(e) => {
                        return Err(e);
                    },
                }
            },
        }
    }
    proof {
        assert(sv.skip(specs.len() as int) =~= Seq::<IndexSpecView>::empty());
    }
    let ghost before = comps@.map_values(|c: IndexComp| c@);
    let ghost k0 = k;
    while k < ndim
        invariant
            ndim == shape.len(),
            k0 <= k <= ndim,
            comps@.map_values(|c: IndexComp| c@) == before + full_axes(shape@, k0 as int, k as int),
        decreases ndim - k,
    {
        let idxs = full_range_vec(shape[k]);
        let ghost prev = comps@.map_values(|c: IndexComp| c@);
        let ghost sel = Selection::Axis(full_range(shape[k as int]), false);
        comps.push(IndexComp::Axis { idxs, is_int: false });
        proof {
            assert(comps@.map_values(|c: IndexComp| c@) =~= prev.push(sel));
            assert(full_axes(shape@, k0 as int, k + 1) =~= full_axes(shape@, k0 as int, k as int).push(
                sel,
            ));
            assert(before + full_axes(shape@, k0 as int, k + 1) =~= (before + full_axes(
                shape@,
                k0 as int,
                k as int,
            )).push(sel));
        }
        k = k + 1;
    }
    Ok(comps)
}

/// The position lists of the axis components, in order.
pub open spec fn axis_lists(sels: Seq<Selection>) -> Seq<Seq<usize>>
    decreases sels.len(),
{
    if sels.len() == 0 {
        Seq::empty()
    } else {
        match sels[0] {
            Selection::Axis(idxs, _) => seq![idxs] + axis_lists(sels.drop_first()),
            Selection::NewAxis => axis_lists(sels.drop_first()),
        }
    }
}

/// The selections, read from axis `k` of `shape` on, index every remaining
/// axis exactly once, stay inside each axis, and pick exactly one position
/// where they drop the axis.
pub open spec fn sels_fit(shape: Seq<usize>, k: int, sels: Seq<Selection>) -> bool
    decreases sels.len(),
{
    if sels.len() == 0 {
        k == shape.len()
    } else {
        match sels[0] {
            Selection::NewAxis => sels_fit(shape, k, sels.drop_first()),
            Selection::Axis(idxs, is_int) => {
                &&& 0 <= k < shape.len()
                &&& forall|t: int| 0 <= t < idxs.len() ==> #[trigger] idxs[t] < shape[k]
                &&& (is_int ==> idxs.len() == 1)
                &&& sels_fit(shape, k + 1, sels.drop_first())
            },
        }
    }
}

/// Shape of the result of a selection: a new axis has length 1, an integer
/// index drops its axis, any other selection keeps its length.
pub open spec fn selection_shape(sels: Seq<Selection>) -> Seq<usize>
    decreases sels.len(),
{
    if sels.len() == 0 {
        Seq::empty()
    } else {
        match sels[0] {
            Selection::NewAxis => seq![1usize] + selection_shape(sels.drop_first()),
            Selection::Axis(idxs, is_int) => if is_int {
                selection_shape(sels.drop_first())
            } else {
                seq![idxs.len() as usize] + selection_shape(sels.drop_first())
            },
        }
    }
}

/// Number of positions selected along each array axis.
pub open spec fn selection_sizes(sels: Seq<Selection>) -> Seq<usize> {
    axis_lists(sels).map_values(|l: Seq<usize>| l.len() as usize)
}

/// The selection is a single element: every component is an integer index.
pub open spec fn is_scalar_selection(sels: Seq<Selection>) -> bool {
    forall|i: int| 0 <= i < sels.len() ==> #[trigger] sels[i] matches Selection::Axis(_, true)
}

/// Array multi-index picked by the selection multi-index `c`.
pub open spec fn selected_coords(lists: Seq<Seq<usize>>, c: Seq<usize>) -> Seq<usize> {
    Seq::new(lists.len(), |k: int| lists[k][c[k] as int])
}

/// Flat array position of the `o`-th selected element (row-major order over
/// the selection).
pub open spec fn selection_position(shape: Seq<usize>, sels: Seq<Selection>, o: int) -> int {
    ravel(shape, selected_coords(axis_lists(sels), unravel(selection_sizes(sels), o)))
}

proof fn lemma_axis_lists_append(a: Seq<Selection>, b: Seq<Selection>)
    ensures
        axis_lists(a + b) == axis_lists(a) + axis_lists(b),
    decreases a.len(),
{
    if a.len() == 0 {
        assert(a + b =~= b);
        assert(axis_lists(a) + axis_lists(b) =~= axis_lists(b));
    } else {
        assert((a + b).drop_first() =~= a.drop_first() + b);
        assert((a + b)[0] == a[0]);
        lemma_axis_lists_append(a.drop_first(), b);
        match a[0] {
            Selection::Axis(idxs, _) => {
                assert(seq![idxs] + (axis_lists(a.drop_first()) + axis_lists(b)) =~= (seq![idxs]
                    + axis_lists(a.drop_first())) + axis_lists(b));
            },
            Selection::NewAxis => {},
        }
    }
}

proof fn lemma_sels_fit_append(shape: Seq<usize>, k: int, a: Seq<Selection>, b: Seq<Selection>, m: int)
    requires
        sels_fit_prefix(shape, k, a, m),
        sels_fit(shape, m, b),
    ensures
        sels_fit(shape, k, a + b),
    decreases a.len(),
{
    if a.len() == 0 {
        assert(a + b =~= b);
    } else {
        assert((a + b).drop_first() =~= a.drop_first() + b);
        assert((a + b)[0] == a[0]);
        match a[0] {
            Selection::NewAxis => {
                lemma_sels_fit_append(shape, k, a.drop_first(), b, m);
            },
            Selection::Axis(_, _) => {
                lemma_sels_fit_append(shape, k + 1, a.drop_first(), b, m);
            },
        }
    }
}

/// Like [`sels_fit`], for a leading part of the selections that leaves off
/// at axis `m`.
pub open spec fn sels_fit_prefix(shape: Seq<usize>, k: int, sels: Seq<Selection>, m: int) -> bool
    decreases sels.len(),
{
    if sels.len() == 0 {
        k == m
    } else {
        match sels[0] {
            Selection::NewAxis => sels_fit_prefix(shape, k, sels.drop_first(), m),
            Selection::Axis(idxs, is_int) => {
                &&& 0 <= k < shape.len()
                &&& forall|t: int| 0 <= t < idxs.len() ==> #[trigger] idxs[t] < shape[k]
                &&& (is_int ==> idxs.len() == 1)
                &&& sels_fit_prefix(shape, k + 1, sels.drop_first(), m)
            },
        }
    }
}

proof fn lemma_full_axes_fit(shape: Seq<usize>, from: int, to: int)
    requires
        0 <= from <= to <= shape.len(),
    ensures
        sels_fit_prefix(shape, from, full_axes(shape, from, to), to),
    decreases to - from,
{
    let f = full_axes(shape, from, to);
    if from < to {
        assert(f.drop_first() =~= full_axes(shape, from + 1, to));
        lemma_full_axes_fit(shape, from + 1, to);
        assert(f[0] == Selection::Axis(full_range(shape[from]), false));
    } else {
        assert(f.len() == 0);
    }
}

proof fn lemma_full_axes_fit_end(shape: Seq<usize>, from: int)
    requires
        0 <= from <= shape.len(),
    ensures
        sels_fit(shape, from, full_axes(shape, from, shape.len() as int)),
    decreases shape.len() - from,
{
    let f = full_axes(shape, from, shape.len() as int);
    if from < shape.len() {
        assert(f.drop_first() =~= full_axes(shape, from + 1, shape.len() as int));
        lemma_full_axes_fit_end(shape, from + 1);
        assert(f[0] == Selection::Axis(full_range(shape[from]), false));
    } else {
        assert(f.len() == 0);
    }
}

/// Every position a mask selects lies inside the mask.
pub proof fn lemma_mask_positions_bound_pub(mask: Seq<bool>)
    ensures
        forall|t: int|
            0 <= t < mask_positions(mask).len() ==> #[trigger] mask_positions(mask)[t] < mask.len(),
{
    lemma_mask_positions_bound(mask);
}

proof fn lemma_mask_positions_bound(mask: Seq<bool>)
    ensures
        forall|t: int|
            0 <= t < mask_positions(mask).len() ==> #[trigger] mask_positions(mask)[t] < mask.len(),
    decreases mask.len(),
{
    if mask.len() > 0 {
        let d = mask.drop_last();
        lemma_mask_positions_bound(d);
        let p = mask_positions(d);
        assert forall|t: int| 0 <= t < mask_positions(mask).len() implies #[trigger] mask_positions(
            mask,
        )[t] < mask.len() by {
            if t < p.len() {
                assert(mask_positions(mask)[t] == p[t]);
            }
        }
    }
}

proof fn lemma_slice_positions_bound(
    a: Option<isize>,
    b: Option<isize>,
    c: Option<isize>,
    n: int,
)
    requires
        0 <= n,
        slice_step(c) != 0,
    ensures
        forall|t: int|
            0 <= t < slice_positions(a, b, c, n).len() ==> 0 <= #[trigger] (slice_start(
                a,
                slice_step(c),
                n,
            ) + t * slice_step(c)) < n,
{
    let st = slice_step(c);
    let s = slice_start(a, st, n);
    let e = slice_stop(b, st, n);
    assert forall|t: int| 0 <= t < slice_positions(a, b, c, n).len() implies 0 <= #[trigger] (s + t
        * st) < n by {
        if st > 0 {
            lemma_slice_count_forward(s, e, st, t);
            vstd::arithmetic::mul::lemma_mul_nonnegative(t, st);
        } else {
            lemma_slice_count_backward(s, e, st, t);
            assert(t * st <= 0) by (nonlinear_arith)
                requires
                    st < 0,
                    t >= 0,
            ;
        }
    }
}

/// A slice selects positions inside its axis, walking strictly in the
/// direction of its step, so it never selects a position twice.
pub proof fn lemma_slice_positions_walk(
    start: Option<isize>,
    stop: Option<isize>,
    step: Option<isize>,
    n: int,
    a: int,
    b: int,
)
    requires
        0 <= n <= usize::MAX,
        slice_step(step) != 0,
        0 <= a < b < slice_positions(start, stop, step, n).len(),
    ensures
        slice_positions(start, stop, step, n)[a] < n,
        slice_step(step) > 0 ==> slice_positions(start, stop, step, n)[a] < slice_positions(
            start,
            stop,
            step,
            n,
        )[b],
        slice_step(step) < 0 ==> slice_positions(start, stop, step, n)[a] > slice_positions(
            start,
            stop,
            step,
            n,
        )[b],
{
    let st = slice_step(step);
    let s = slice_start(start, st, n);
    let sp = slice_positions(start, stop, step, n);
    lemma_slice_positions_bound(start, stop, step, n);
    assert(0 <= s + a * st < n);
    assert(0 <= s + b * st < n);
    assert(sp[a] == s + a * st);
    assert(sp[b] == s + b * st);
    if st > 0 {
        assert(a * st < b * st) by (nonlinear_arith)
            requires
                a < b,
                st > 0,
        ;
    } else {
        assert(a * st > b * st) by (nonlinear_arith)
            requires
                a < b,
                st < 0,
        ;
    }
}

/// `[:]` selects a whole axis in order, and `[::-1]` the whole axis in
/// reverse order.
pub proof fn lemma_full_and_reversed_slice(n: int)
    requires
        0 <= n <= usize::MAX,
    ensures
        slice_positions(None, None, None, n) == Seq::new(n as nat, |i: int| i as usize),
        slice_positions(None, None, Some(-1isize), n) == Seq::new(
            n as nat,
            |i: int| (n - 1 - i) as usize,
        ),
{
    assert(slice_positions(None, None, None, n) =~= Seq::new(n as nat, |i: int| i as usize));
    assert(slice_positions(None, None, Some(-1isize), n) =~= Seq::new(
        n as nat,
        |i: int| (n - 1 - i) as usize,
    ));
}

proof fn lemma_first_oob_none(list: Seq<isize>, n: int)
    requires
        first_out_of_bounds(list, n) is None,
    ensures
        forall|t: int| 0 <= t < list.len() ==> 0 <= #[trigger] norm_index(list[t], n) < n,
    decreases list.len(),
{
    if list.len() > 0 {
        lemma_first_oob_none(list.drop_first(), n);
        assert forall|t: int| 0 <= t < list.len() implies 0 <= #[trigger] norm_index(list[t], n)
            < n by {
            if t > 0 {
                assert(list[t] == list.drop_first()[t - 1]);
            }
        }
    }
}

proof fn lemma_resolve_spec_fits(shape: Seq<usize>, k: int, spec: IndexSpecView)
    requires
        0 <= k < shape.len(),
        is_real(spec),
        resolve_spec(shape, k, spec) is Ok,
    ensures
        resolve_spec(shape, k, spec) matches Ok(c) && sels_fit_prefix(shape, k, seq![c], k + 1),
{
    let n = shape[k] as int;
    let c = resolve_spec(shape, k, spec)->Ok_0;
    assert(seq![c].drop_first() =~= Seq::<Selection>::empty());
    assert(sels_fit_prefix(shape, k + 1, seq![c].drop_first(), k + 1));
    match spec {
        IndexSpecView::Slice(a, b, st) => {
            lemma_slice_positions_bound(a, b, st, n);
            let ps = slice_positions(a, b, st, n);
            let s0 = slice_start(a, slice_step(st), n);
            assert forall|t: int| 0 <= t < ps.len() implies #[trigger] ps[t] < shape[k] by {
                assert(0 <= s0 + t * slice_step(st) < n);
                assert(ps[t] == (s0 + t * slice_step(st)) as usize);
            }
            assert(c == Selection::Axis(ps, false));
        },
        IndexSpecView::Mask(m) => {
            lemma_mask_positions_bound(m);
        },
        IndexSpecView::List(l) => {
            lemma_first_oob_none(l, n);
        },
        _ => {},
    }
}

proof fn lemma_resolve_from_fits(shape: Seq<usize>, specs: Seq<IndexSpecView>, fill: int, k: int)
    requires
        0 <= k,
        0 <= fill,
        k + real_count(specs) + ellipsis_count(specs) * fill <= shape.len(),
        resolve_from(shape, specs, fill, k) is Ok,
    ensures
        resolve_from(shape, specs, fill, k) matches Ok(r) && sels_fit(shape, k, r),
    decreases specs.len(),
{
    if specs.len() == 0 {
        lemma_full_axes_fit_end(shape, k);
    } else {
        let rest = specs.drop_first();
        assert(ellipsis_count(rest) * fill >= 0) by (nonlinear_arith)
            requires
                fill >= 0,
        ;
        match specs[0] {
            IndexSpecView::NewAxis => {
                lemma_resolve_from_fits(shape, rest, fill, k);
                let r = resolve_from(shape, rest, fill, k)->Ok_0;
                let one = seq![Selection::NewAxis];
                assert(one.drop_first() =~= Seq::<Selection>::empty());
                assert(sels_fit_prefix(shape, k, one.drop_first(), k));
                assert(sels_fit_prefix(shape, k, one, k));
                lemma_sels_fit_append(shape, k, one, r, k);
            },
            IndexSpecView::Ellipsis => {
                assert((1 + ellipsis_count(rest)) * fill == fill + ellipsis_count(rest) * fill)
                    by (nonlinear_arith);
                lemma_resolve_from_fits(shape, rest, fill, k + fill);
                let r = resolve_from(shape, rest, fill, k + fill)->Ok_0;
                lemma_full_axes_fit(shape, k, k + fill);
                lemma_sels_fit_append(shape, k, full_axes(shape, k, k + fill), r, k + fill);
            },
            _ => {
                lemma_resolve_spec_fits(shape, k, specs[0]);
                let c = resolve_spec(shape, k, specs[0])->Ok_0;
                lemma_resolve_from_fits(shape, rest, fill, k + 1);
                let r = resolve_from(shape, rest, fill, k + 1)->Ok_0;
                lemma_sels_fit_append(shape, k, seq![c], r, k + 1);
            },
        }
    }
}

/// Every index that `parse_index` resolves lies inside its axis, every axis
/// of the array is indexed exactly once, and integer indices pick exactly
/// one position.
pub proof fn lemma_resolved_index_fits(shape: Seq<usize>, specs: Seq<IndexSpecView>)
    requires
        resolve_index(shape, specs) is Ok,
    ensures
        resolve_index(shape, specs) matches Ok(r) && sels_fit(shape, 0, r),
{
    let fill = shape.len() - real_count(specs);
    assert(ellipsis_count(specs) * fill <= fill) by (nonlinear_arith)
        requires
            ellipsis_count(specs) <= 1,
            fill >= 0,
    ;
    lemma_resolve_from_fits(shape, specs, fill, 0);
}

/// What the selections index, read from axis `k` on.
proof fn lemma_sels_fit_lists(shape: Seq<usize>, k: int, sels: Seq<Selection>)
    requires
        sels_fit(shape, k, sels),
        0 <= k,
    ensures
        axis_lists(sels).len() == shape.len() - k,
        forall|j: int, t: int|
            0 <= j < axis_lists(sels).len() && 0 <= t < axis_lists(sels)[j].len() ==> #[trigger] axis_lists(
                sels,
            )[j][t] < shape[k + j],
    decreases sels.len(),
{
    if sels.len() > 0 {
        let rest = sels.drop_first();
        match sels[0] {
            Selection::NewAxis => {
                lemma_sels_fit_lists(shape, k, rest);
            },
            Selection::Axis(idxs, _) => {
                lemma_sels_fit_lists(shape, k + 1, rest);
                let l = axis_lists(sels);
                assert(l == seq![idxs] + axis_lists(rest));
                assert forall|j: int, t: int| 0 <= j < l.len() && 0 <= t < l[j].len() implies #[trigger] l[j][t]
                    < shape[k + j] by {
                    if j > 0 {
                        assert(l[j] == axis_lists(rest)[j - 1]);
                    }
                }
            },
        }
    }
}

/// No axis list of the selection names a position twice.
pub open spec fn lists_distinct(sels: Seq<Selection>) -> bool {
    forall|j: int, a: int, b: int|
        0 <= j < axis_lists(sels).len() && 0 <= a < b < axis_lists(sels)[j].len() ==> #[trigger] axis_lists(
            sels,
        )[j][a] != #[trigger] axis_lists(sels)[j][b]
}

/// The positions of one selection component are pairwise different.
pub open spec fn sel_distinct(sel: Selection) -> bool {
    match sel {
        Selection::Axis(idxs, _) => forall|a: int, b: int|
            0 <= a < b < idxs.len() ==> #[trigger] idxs[a] != #[trigger] idxs[b],
        Selection::NewAxis => true,
    }
}

/// Integers, slices, masks, `...` and the axes left whole never select a
/// position twice; only an explicit list of integers can.
pub proof fn lemma_resolved_lists_distinct(shape: Seq<usize>, specs: Seq<IndexSpecView>)
    requires
        resolve_index(shape, specs) is Ok,
        forall|i: int| 0 <= i < specs.len() ==> !(#[trigger] specs[i] is List),
    ensures
        lists_distinct(resolve_index(shape, specs)->Ok_0),
{
    let fill = shape.len() - real_count(specs);
    lemma_resolve_from_distinct(shape, specs, fill, 0);
    lemma_lists_distinct_from(resolve_index(shape, specs)->Ok_0);
}

proof fn lemma_lists_distinct_from(sels: Seq<Selection>)
    requires
        forall|i: int| 0 <= i < sels.len() ==> sel_distinct(#[trigger] sels[i]),
    ensures
        lists_distinct(sels),
    decreases sels.len(),
{
    if sels.len() > 0 {
        let rest = sels.drop_first();
        assert forall|i: int| 0 <= i < rest.len() implies sel_distinct(#[trigger] rest[i]) by {
            assert(rest[i] == sels[i + 1]);
        }
        lemma_lists_distinct_from(rest);
        let l = axis_lists(sels);
        match sels[0] {
            Selection::Axis(idxs, _) => {
                assert(sel_distinct(sels[0]));
                assert(l == seq![idxs] + axis_lists(rest));
                assert forall|j: int, a: int, b: int|
                    0 <= j < l.len() && 0 <= a < b < l[j].len() implies #[trigger] l[j][a]
                    != #[trigger] l[j][b] by {
                    if j > 0 {
                        assert(l[j] == axis_lists(rest)[j - 1]);
                    } else {
                        assert(l[0] == idxs);
                    }
                }
            },
            Selection::NewAxis => {
                assert(l == axis_lists(rest));
            },
        }
    }
}

proof fn lemma_full_axes_distinct(shape: Seq<usize>, from: int, to: int)
    ensures
        forall|i: int| 0 <= i < full_axes(shape, from, to).len() ==> sel_distinct(
            #[trigger] full_axes(shape, from, to)[i],
        ),
{
}

proof fn lemma_mask_positions_increasing(mask: Seq<bool>)
    requires
        mask.len() <= usize::MAX,
    ensures
        forall|a: int, b: int|
            0 <= a < b < mask_positions(mask).len() ==> #[trigger] mask_positions(mask)[a]
                < #[trigger] mask_positions(mask)[b],
    decreases mask.len(),
{
    if mask.len() > 0 {
        let d = mask.drop_last();
        lemma_mask_positions_increasing(d);
        lemma_mask_positions_bound(d);
        let p = mask_positions(d);
        let q = mask_positions(mask);
        assert forall|a: int, b: int| 0 <= a < b < q.len() implies #[trigger] q[a] < #[trigger] q[b] by {
            assert(q[a] == p[a]);
            if b < p.len() {
                assert(q[b] == p[b]);
            } else {
                assert(q[b] == mask.len() - 1);
            }
        }
    }
}

proof fn lemma_resolve_spec_distinct(shape: Seq<usize>, k: int, spec: IndexSpecView)
    requires
        resolve_spec(shape, k, spec) is Ok,
        !(spec is List),
    ensures
        sel_distinct(resolve_spec(shape, k, spec)->Ok_0),
{
    let n = shape[k] as int;
    match spec {
        IndexSpecView::Slice(a, b, c) => {
            let sp = slice_positions(a, b, c, n);
            assert forall|x: int, y: int| 0 <= x < y < sp.len() implies #[trigger] sp[x] != #[trigger] sp[y] by {
                lemma_slice_positions_walk(a, b, c, n, x, y);
            }
        },
        IndexSpecView::Mask(m) => {
            lemma_mask_positions_increasing(m);
        },
        _ => {},
    }
}

proof fn lemma_resolve_from_distinct(shape: Seq<usize>, specs: Seq<IndexSpecView>, fill: int, k: int)
    requires
        resolve_from(shape, specs, fill, k) is Ok,
        forall|i: int| 0 <= i < specs.len() ==> !(#[trigger] specs[i] is List),
    ensures
        forall|i: int|
            0 <= i < (resolve_from(shape, specs, fill, k)->Ok_0).len() ==> sel_distinct(
                #[trigger] (resolve_from(shape, specs, fill, k)->Ok_0)[i],
            ),
    decreases specs.len(),
{
    let r = resolve_from(shape, specs, fill, k)->Ok_0;
    if specs.len() == 0 {
        lemma_full_axes_distinct(shape, k, shape.len() as int);
    } else {
        let rest = specs.drop_first();
        assert forall|i: int| 0 <= i < rest.len() implies !(#[trigger] rest[i] is List) by {
            assert(rest[i] == specs[i + 1]);
        }
        assert(!(specs[0] is List));
        match specs[0] {
            IndexSpecView::NewAxis => {
                lemma_resolve_from_distinct(shape, rest, fill, k);
                let t = resolve_from(shape, rest, fill, k)->Ok_0;
                assert(r == seq![Selection::NewAxis] + t);
                assert forall|i: int| 0 <= i < r.len() implies sel_distinct(#[trigger] r[i]) by {
                    if i > 0 {
                        assert(r[i] == t[i - 1]);
                    }
                }
            },
            IndexSpecView::Ellipsis => {
                lemma_resolve_from_distinct(shape, rest, fill, k + fill);
                lemma_full_axes_distinct(shape, k, k + fill);
                let f = full_axes(shape, k, k + fill);
                let t = resolve_from(shape, rest, fill, k + fill)->Ok_0;
                assert(r == f + t);
                assert forall|i: int| 0 <= i < r.len() implies sel_distinct(#[trigger] r[i]) by {
                    if i < f.len() {
                        assert(r[i] == f[i]);
                    } else {
                        assert(r[i] == t[i - f.len()]);
                    }
                }
            },
            _ => {
                lemma_resolve_spec_distinct(shape, k, specs[0]);
                lemma_resolve_from_distinct(shape, rest, fill, k + 1);
                let c = resolve_spec(shape, k, specs[0])->Ok_0;
                let t = resolve_from(shape, rest, fill, k + 1)->Ok_0;
                assert(r == seq![c] + t);
                assert forall|i: int| 0 <= i < r.len() implies sel_distinct(#[trigger] r[i]) by {
                    if i > 0 {
                        assert(r[i] == t[i - 1]);
                    }
                }
            },
        }
    }
}

/// A selection whose axis lists repeat no position designates every element
/// at most once: assigning through it writes each selected element once, and
/// reading through it afterwards gives back what was assigned.
pub proof fn lemma_selection_positions_distinct(shape: Seq<usize>, sels: Seq<Selection>, o1: int, o2: int)
    requires
        sels_fit(shape, 0, sels),
        lists_distinct(sels),
        0 <= o1 < o2 < shape_size(selection_sizes(sels)),
    ensures
        selection_position(shape, sels, o1) != selection_position(shape, sels, o2),
{
    lemma_sels_fit_lists(shape, 0, sels);
    let lists = axis_lists(sels);
    let sizes = selection_sizes(sels);
    lemma_unravel_ravel(sizes, o1);
    lemma_unravel_ravel(sizes, o2);
    let u1 = unravel(sizes, o1);
    let u2 = unravel(sizes, o2);
    let c1 = selected_coords(lists, u1);
    let c2 = selected_coords(lists, u2);
    assert(in_bounds(shape, c1)) by {
        assert forall|k: int| 0 <= k < shape.len() implies #[trigger] c1[k] < shape[k] by {
            assert(u1[k] < sizes[k]);
            assert(lists[k][u1[k] as int] < shape[0 + k]);
        }
    }
    assert(in_bounds(shape, c2)) by {
        assert forall|k: int| 0 <= k < shape.len() implies #[trigger] c2[k] < shape[k] by {
            assert(u2[k] < sizes[k]);
            assert(lists[k][u2[k] as int] < shape[0 + k]);
        }
    }
    if ravel(shape, c1) == ravel(shape, c2) {
        lemma_ravel_unravel(shape, c1);
        lemma_ravel_unravel(shape, c2);
        assert(c1 == c2);
        assert(u1 =~= u2) by {
            assert forall|k: int| 0 <= k < u1.len() implies u1[k] == u2[k] by {
                assert(c1[k] == c2[k]);
                assert(u1[k] < sizes[k] && u2[k] < sizes[k]);
                if u1[k] < u2[k] {
                    assert(lists[k][u1[k] as int] != lists[k][u2[k] as int]);
                } else if u2[k] < u1[k] {
                    assert(lists[k][u2[k] as int] != lists[k][u1[k] as int]);
                }
            }
        }
        assert(false);
    }
}

/// A resolution with a new axis put at its end.
pub open spec fn push_new_axis(r: Result<Seq<Selection>, IndexError>) -> Result<Seq<Selection>, IndexError> {
    match r {
        Ok(sels) => Ok(sels.push(Selection::NewAxis)),
        Err(e) => Err(e),
    }
}

/// Number of array axes the specs take, with `...` standing for `fill` axes.
pub open spec fn axes_taken(specs: Seq<IndexSpecView>, fill: int) -> int
    decreases specs.len(),
{
    if specs.len() == 0 {
        0
    } else {
        (match specs[0] {
            IndexSpecView::NewAxis => 0,
            IndexSpecView::Ellipsis => fill,
            _ => 1,
        }) + axes_taken(specs.drop_first(), fill)
    }
}

/// `None` (a new axis) takes no axis of the array: putting one in front of
/// an index never changes whether it resolves, and puts a new axis in front
/// of what it resolves to.
pub proof fn lemma_leading_new_axis(shape: Seq<usize>, specs: Seq<IndexSpecView>)
    ensures
        resolve_index(shape, seq![IndexSpecView::NewAxis] + specs) == prepend(
            seq![Selection::NewAxis],
            resolve_index(shape, specs),
        ),
{
    let p = seq![IndexSpecView::NewAxis] + specs;
    assert(p.drop_first() =~= specs);
    assert(p[0] == IndexSpecView::NewAxis);
    assert(real_count(p) == real_count(specs));
    assert(ellipsis_count(p) == ellipsis_count(specs));
}

/// `None` (a new axis) takes no axis of the array: after an index that
/// takes every axis (one holding `...`, or as many real indices as axes),
/// a trailing `None` resolves to the same selections followed by a new
/// axis, and fails exactly when the index does.
pub proof fn lemma_trailing_new_axis(shape: Seq<usize>, specs: Seq<IndexSpecView>)
    requires
        ellipsis_count(specs) == 1 || real_count(specs) == shape.len(),
    ensures
        resolve_index(shape, specs.push(IndexSpecView::NewAxis)) == push_new_axis(
            resolve_index(shape, specs),
        ),
{
    let p = specs.push(IndexSpecView::NewAxis);
    lemma_counts_push_new_axis(specs);
    if ellipsis_count(specs) <= 1 && real_count(specs) <= shape.len() {
        let fill = shape.len() - real_count(specs);
        lemma_axes_taken_counts(specs, fill);
        if ellipsis_count(specs) == 1 {
            assert(axes_taken(specs, fill) == real_count(specs) + fill);
        } else {
            assert(axes_taken(specs, fill) == real_count(specs) + 0) by (nonlinear_arith)
                requires
                    axes_taken(specs, fill) == real_count(specs) + ellipsis_count(specs) * fill,
                    ellipsis_count(specs) == 0,
            ;
        }
        lemma_resolve_from_push_new_axis(shape, specs, fill, 0);
    }
}

proof fn lemma_counts_push_new_axis(specs: Seq<IndexSpecView>)
    ensures
        real_count(specs.push(IndexSpecView::NewAxis)) == real_count(specs),
        ellipsis_count(specs.push(IndexSpecView::NewAxis)) == ellipsis_count(specs),
    decreases specs.len(),
{
    let p = specs.push(IndexSpecView::NewAxis);
    if specs.len() == 0 {
        assert(p.drop_first() =~= specs);
    } else {
        lemma_counts_push_new_axis(specs.drop_first());
        assert(p.drop_first() =~= specs.drop_first().push(IndexSpecView::NewAxis));
        assert(p[0] == specs[0]);
    }
}

proof fn lemma_axes_taken_counts(specs: Seq<IndexSpecView>, fill: int)
    ensures
        axes_taken(specs, fill) == real_count(specs) + ellipsis_count(specs) * fill,
    decreases specs.len(),
{
    if specs.len() == 0 {
        assert(0 * fill == 0) by (nonlinear_arith);
    } else {
        let rest = specs.drop_first();
        lemma_axes_taken_counts(rest, fill);
        let e = ellipsis_count(rest) as int;
        let r = real_count(rest) as int;
        let a = axes_taken(rest, fill);
        if specs[0] is Ellipsis {
            assert(ellipsis_count(specs) == e + 1);
            assert(real_count(specs) == r);
            assert(axes_taken(specs, fill) == fill + a);
            assert(fill + a == r + (e + 1) * fill) by (nonlinear_arith)
                requires
                    a == r + e * fill,
            ;
        } else if specs[0] is NewAxis {
            assert(ellipsis_count(specs) == e);
            assert(real_count(specs) == r);
            assert(axes_taken(specs, fill) == a);
        } else {
            assert(ellipsis_count(specs) == e);
            assert(real_count(specs) == r + 1);
            assert(axes_taken(specs, fill) == 1 + a);
        }
    }
}

proof fn lemma_resolve_from_push_new_axis(
    shape: Seq<usize>,
    specs: Seq<IndexSpecView>,
    fill: int,
    k: int,
)
    requires
        k + axes_taken(specs, fill) == shape.len(),
    ensures
        resolve_from(shape, specs.push(IndexSpecView::NewAxis), fill, k) == push_new_axis(
            resolve_from(shape, specs, fill, k),
        ),
    decreases specs.len(),
{
    let p = specs.push(IndexSpecView::NewAxis);
    if specs.len() == 0 {
        assert(p.drop_first() =~= specs);
        assert(full_axes(shape, k, shape.len() as int) =~= Seq::<Selection>::empty());
        assert(seq![Selection::NewAxis] + Seq::<Selection>::empty() =~= Seq::<Selection>::empty().push(
            Selection::NewAxis,
        ));
    } else {
        let rest = specs.drop_first();
        assert(p.drop_first() =~= rest.push(IndexSpecView::NewAxis));
        assert(p[0] == specs[0]);
        match specs[0] {
            IndexSpecView::NewAxis => {
                lemma_resolve_from_push_new_axis(shape, rest, fill, k);
                match resolve_from(shape, rest, fill, k) {
                    Ok(t) => {
                        assert(seq![Selection::NewAxis] + t.push(Selection::NewAxis) =~= (seq![
                            Selection::NewAxis,
                        ] + t).push(Selection::NewAxis));
                    },
                    Err(_) => {},
                }
            },
            IndexSpecView::Ellipsis => {
                lemma_resolve_from_push_new_axis(shape, rest, fill, k + fill);
                let f = full_axes(shape, k, k + fill);
                match resolve_from(shape, rest, fill, k + fill) {
                    Ok(t) => {
                        assert(f + t.push(Selection::NewAxis) =~= (f + t).push(Selection::NewAxis));
                    },
                    Err(_) => {},
                }
            },
            _ => {
                lemma_resolve_from_push_new_axis(shape, rest, fill, k + 1);
                match resolve_spec(shape, k, specs[0]) {
                    Ok(c) => {
                        match resolve_from(shape, rest, fill, k + 1) {
                            Ok(t) => {
                                assert(seq![c] + t.push(Selection::NewAxis) =~= (seq![c] + t).push(
                                    Selection::NewAxis,
                                ));
                            },
                            Err(_) => {},
                        }
                    },
                    Err(_) => {},
                }
            },
        }
    }
}

/// An index made of integers only designates a single element: the one at
/// the row-major position of its (normalized) integers.
pub proof fn lemma_scalar_selection(shape: Seq<usize>, sels: Seq<Selection>)
    requires
        sels_fit(shape, 0, sels),
        is_scalar_selection(sels),
    ensures
        shape_size(selection_sizes(sels)) == 1,
        selection_position(shape, sels, 0) == ravel(
            shape,
            Seq::new(shape.len(), |k: int| axis_lists(sels)[k][0]),
        ),
{
    lemma_sels_fit_lists(shape, 0, sels);
    lemma_scalar_lists(shape, 0, sels);
    let lists = axis_lists(sels);
    let sizes = selection_sizes(sels);
    assert forall|j: int| 0 <= j < sizes.len() implies #[trigger] sizes[j] == 1 by {
        assert(lists[j].len() == 1);
    }
    lemma_ones(sizes);
    let z = unravel(sizes, 0);
    assert(selected_coords(lists, z) =~= Seq::new(shape.len(), |k: int| lists[k][0]));
}

/// The lists of an integer-only selection each hold one position.
proof fn lemma_scalar_lists(shape: Seq<usize>, k: int, sels: Seq<Selection>)
    requires
        sels_fit(shape, k, sels),
        is_scalar_selection(sels),
    ensures
        forall|j: int| 0 <= j < axis_lists(sels).len() ==> (#[trigger] axis_lists(sels)[j]).len() == 1,
    decreases sels.len(),
{
    if sels.len() > 0 {
        let rest = sels.drop_first();
        assert(is_scalar_selection(rest)) by {
            assert forall|i: int| 0 <= i < rest.len() implies #[trigger] rest[i] matches Selection::Axis(
                _,
                true,
            ) by {
                assert(rest[i] == sels[i + 1]);
            }
        }
        assert(sels[0] matches Selection::Axis(_, true));
        match sels[0] {
            Selection::Axis(idxs, _) => {
                lemma_scalar_lists(shape, k + 1, rest);
                let l = axis_lists(sels);
                assert(l == seq![idxs] + axis_lists(rest));
                assert forall|j: int| 0 <= j < l.len() implies (#[trigger] l[j]).len() == 1 by {
                    if j > 0 {
                        assert(l[j] == axis_lists(rest)[j - 1]);
                    }
                }
            },
            Selection::NewAxis => {},
        }
    }
}

/// A shape of ones has one element, and position 0 of it is the all-zero
/// multi-index.
proof fn lemma_ones(s: Seq<usize>)
    requires
        forall|j: int| 0 <= j < s.len() ==> #[trigger] s[j] == 1,
    ensures
        shape_size(s) == 1,
        unravel(s, 0).len() == s.len(),
        forall|j: int| 0 <= j < s.len() ==> #[trigger] unravel(s, 0)[j] == 0,
    decreases s.len(),
{
    if s.len() > 0 {
        let tail = s.drop_first();
        assert forall|j: int| 0 <= j < tail.len() implies #[trigger] tail[j] == 1 by {
            assert(tail[j] == s[j + 1]);
        }
        lemma_ones(tail);
        let u = unravel(s, 0);
        assert(u == seq![(0int / 1int) as usize] + unravel(tail, 0int % 1int));
        assert forall|j: int| 0 <= j < s.len() implies #[trigger] unravel(s, 0)[j] == 0 by {
            if j > 0 {
                assert(u[j] == unravel(tail, 0)[j - 1]);
            }
        }
    }
}

/// The result shape of a selection holds as many elements as it selects.
pub proof fn lemma_selection_shape_size(shape: Seq<usize>, k: int, sels: Seq<Selection>)
    requires
        sels_fit(shape, k, sels),
    ensures
        shape_size(selection_shape(sels)) == shape_size(selection_sizes(sels)),
    decreases sels.len(),
{
    if sels.len() > 0 {
        let rest = sels.drop_first();
        let ss = selection_shape(sels);
        let sz = selection_sizes(sels);
        let ssr = selection_shape(rest);
        let szr = selection_sizes(rest);
        match sels[0] {
            Selection::NewAxis => {
                lemma_selection_shape_size(shape, k, rest);
                assert(ss == seq![1usize] + ssr);
                assert(ss.drop_first() =~= ssr);
                assert(shape_size(ss) == ss[0] * shape_size(ss.drop_first()));
                assert(ss[0] == 1);
                assert(shape_size(ss.drop_first()) == shape_size(ssr));
                vstd::arithmetic::mul::lemma_mul_basics(shape_size(ssr) as int);
                assert(axis_lists(sels) == axis_lists(rest));
                assert(sz =~= szr);
            },
            Selection::Axis(idxs, is_int) => {
                lemma_selection_shape_size(shape, k + 1, rest);
                assert(axis_lists(sels) == seq![idxs] + axis_lists(rest));
                assert(sz.drop_first() =~= szr);
                assert(sz[0] == idxs.len() as usize);
                assert(shape_size(sz) == sz[0] * shape_size(sz.drop_first()));
                if !is_int {
                    assert(ss == seq![idxs.len() as usize] + ssr);
                    assert(ss.drop_first() =~= ssr);
                    assert(shape_size(ss) == ss[0] * shape_size(ss.drop_first()));
                } else {
                    assert(ss == ssr);
                    assert(idxs.len() == 1);
                    assert(sz[0] == 1);
                    assert(shape_size(sz.drop_first()) == shape_size(szr));
                    vstd::arithmetic::mul::lemma_mul_basics(shape_size(szr) as int);
                }
            },
        }
    }
}

/// Result shape of a selection.
pub fn selection_shape_vec(comps: &[IndexComp]) -> (out: Vec<usize>)
    ensures
        out@ == selection_shape(comps@.map_values(|c: IndexComp| c@)),
{
    let ghost sels = comps@.map_values(|c: IndexComp| c@);
    let mut out: Vec<usize> = Vec::new();
    let n = comps.len();
    let mut i: usize = n;
    proof {
        assert(sels.skip(n as int) =~= Seq::<Selection>::empty());
    }
    while i > 0
        invariant
            i <= n,
            n == comps.len(),
            sels == comps@.map_values(|c: IndexComp| c@),
            out@.reverse() == selection_shape(sels.skip(i as int)),
        decreases i,
    {
        i = i - 1;
        let ghost prev = out@;
        proof {
            assert(sels.skip(i as int).drop_first() =~= sels.skip(i + 1));
            assert(sels.skip(i as int)[0] == comps@[i as int]@);
        }
        match &comps[i] {
            IndexComp::NewAxis => {
                out.push(1);
                assert(out@.reverse() =~= seq![1usize] + prev.reverse());
            },
            IndexComp::Axis { idxs, is_int } => {
                if !*is_int {
                    out.push(idxs.len());
                    assert(out@.reverse() =~= seq![idxs.len()] + prev.reverse());
                }
            },
        }
    }
    proof {
        assert(sels.skip(0) =~= sels);
    }
    let mut rev: Vec<usize> = Vec::new();
    let m = out.len();
    let mut j: usize = m;
    while j > 0
        invariant
            j <= m,
            m == out.len(),
            rev.len() == m - j,
            forall|t: int| 0 <= t < rev.len() ==> #[trigger] rev@[t] == out@[m - 1 - t],
        decreases j,
    {
        j = j - 1;
        rev.push(out[j]);
    }
    assert(rev@ =~= out@.reverse());
    rev
}

/// Whether the selection is a single element (every component an integer
/// index).
pub fn is_scalar(comps: &[IndexComp]) -> (b: bool)
    ensures
        b == is_scalar_selection(comps@.map_values(|c: IndexComp| c@)),
{
    let ghost sels = comps@.map_values(|c: IndexComp| c@);
    for i in 0..comps.len()
        invariant
            sels == comps@.map_values(|c: IndexComp| c@),
            forall|t: int| 0 <= t < i ==> #[trigger] sels[t] matches Selection::Axis(_, true),
    {
        match &comps[i] {
            IndexComp::Axis { is_int, .. } => {
                if !*is_int {
                    assert(!(sels[i as int] matches Selection::Axis(_, true)));
                    return false;
                }
            },
            IndexComp::NewAxis => {
                return false;
            },
        }
    }
    true
}

/// Flat positions of the elements a selection designates, in row-major
/// order over the selection (the order in which indexing reads them and
/// assignment writes them); `None` when the number of selected elements
/// overflows.
pub fn selection_positions(shape: &[usize], comps: &[IndexComp]) -> (r: Option<Vec<usize>>)
    requires
        valid_shape(shape@),
        sels_fit(shape@, 0, comps@.map_values(|c: IndexComp| c@)),
    ensures
        r is Some <==> prefix_products_fit(selection_sizes(comps@.map_values(|c: IndexComp| c@))),
        r matches Some(p) ==> p.len() == shape_size(
            selection_sizes(comps@.map_values(|c: IndexComp| c@)),
        ),
        r matches Some(p) ==> forall|o: int|
            0 <= o < p.len() ==> #[trigger] p@[o] == selection_position(
                shape@,
                comps@.map_values(|c: IndexComp| c@),
                o,
            ) && p@[o] < shape_size(shape@),
{
    let ghost sels = comps@.map_values(|c: IndexComp| c@);
    let ghost lists = axis_lists(sels);
    let mut axis_at: Vec<usize> = Vec::new();
    let mut sizes: Vec<usize> = Vec::new();
    proof {
        assert(sels.take(0) =~= Seq::<Selection>::empty());
    }
    for i in 0..comps.len()
        invariant
            sels == comps@.map_values(|c: IndexComp| c@),
            axis_at.len() == sizes.len(),
            axis_at.len() == axis_lists(sels.take(i as int)).len(),
            forall|k: int| 0 <= k < axis_at.len() ==> #[trigger] axis_at@[k] < i,
            forall|k: int|
                0 <= k < axis_at.len() ==> #[trigger] comps@[axis_at@[k] as int]@ == Selection::Axis(
                    axis_lists(sels.take(i as int))[k],
                    comps@[axis_at@[k] as int]@->Axis_1,
                ),
            forall|k: int|
                0 <= k < sizes.len() ==> #[trigger] sizes@[k] == axis_lists(sels.take(i as int))[k].len(),
    {
        let ghost before = sels.take(i as int);
        let ghost one = seq![sels[i as int]];
        proof {
            assert(sels.take(i + 1) =~= before + one);
            lemma_axis_lists_append(before, one);
            assert(one.drop_first() =~= Seq::<Selection>::empty());
            assert(axis_lists(Seq::<Selection>::empty()) =~= Seq::<Seq<usize>>::empty());
            assert(sels[i as int] == comps@[i as int]@);
            match sels[i as int] {
                Selection::Axis(l, _) => {
                    assert(axis_lists(one) =~= seq![l]);
                },
                Selection::NewAxis => {
                    assert(axis_lists(one) =~= Seq::<Seq<usize>>::empty());
                },
            }
        }
        match &comps[i] {
            IndexComp::Axis { idxs, .. } => {
                axis_at.push(i);
                sizes.push(idxs.len());
            },
            IndexComp::NewAxis => {},
        }
    }
    proof {
        assert(sels.take(comps.len() as int) =~= sels);
        lemma_sels_fit_lists(shape@, 0, sels);
    }
    assert(sizes@ =~= selection_sizes(sels));
    let total = match checked_size(&sizes) {
        Some(t) => t,
        None => {
            return None;
        },
    };
    let mut out: Vec<usize> = Vec::new();
    if total == 0 {
        return Some(out);
    }
    proof {
        lemma_positive_size_suffixes(sizes@);
        lemma_valid_shape_size(shape@);
    }
    let size_strides = compute_strides(&sizes);
    let strides = compute_strides(shape);
    let ndim = shape.len();
    for o in 0..total
        invariant
            sels == comps@.map_values(|c: IndexComp| c@),
            lists == axis_lists(sels),
            total == shape_size(sizes@),
            total > 0,
            sizes@ == selection_sizes(sels),
            prefix_products_fit(sizes@),
            valid_shape(sizes@),
            valid_shape(shape@),
            ndim == shape.len(),
            lists.len() == ndim,
            axis_at.len() == ndim,
            sizes.len() == ndim,
            forall|k: int|
                0 <= k < ndim ==> #[trigger] comps@[axis_at@[k] as int]@ == Selection::Axis(
                    lists[k],
                    comps@[axis_at@[k] as int]@->Axis_1,
                ),
            forall|k: int| 0 <= k < ndim ==> #[trigger] axis_at@[k] < comps.len(),
            forall|k: int| 0 <= k < ndim ==> #[trigger] sizes@[k] == lists[k].len(),
            forall|j: int, t: int|
                0 <= j < lists.len() && 0 <= t < lists[j].len() ==> #[trigger] lists[j][t] < shape@[j],
            size_strides@ == row_major_strides(sizes@),
            strides@ == row_major_strides(shape@),
            out.len() == o,
            forall|p: int|
                0 <= p < o ==> #[trigger] out@[p] == selection_position(shape@, sels, p) && out@[p]
                    < shape_size(shape@),
    {
        let c = unravel_index(&sizes, &size_strides, o);
        let mut coords: Vec<usize> = Vec::new();
        for k in 0..ndim
            invariant
                ndim == shape.len(),
                c.len() == ndim,
                in_bounds(sizes@, c@),
                lists.len() == ndim,
                axis_at.len() == ndim,
                sizes.len() == ndim,
                forall|k: int|
                    0 <= k < ndim ==> #[trigger] comps@[axis_at@[k] as int]@ == Selection::Axis(
                        lists[k],
                        comps@[axis_at@[k] as int]@->Axis_1,
                    ),
                forall|k: int| 0 <= k < ndim ==> #[trigger] axis_at@[k] < comps.len(),
                forall|k: int| 0 <= k < ndim ==> #[trigger] sizes@[k] == lists[k].len(),
                coords.len() == k,
                forall|t: int| 0 <= t < k ==> #[trigger] coords@[t] == lists[t][c@[t] as int],
        {
            let a = axis_at[k];
            assert(a < comps.len());
            assert(comps@[a as int]@ == Selection::Axis(lists[k as int], comps@[a as int]@->Axis_1));
            assert(c@[k as int] < sizes@[k as int]);
            match &comps[a] {
                IndexComp::Axis { idxs, .. } => {
                    assert(idxs@ == lists[k as int]);
                    coords.push(idxs[c[k]]);
                },
                IndexComp::NewAxis => {
                    assert(false);
                },
            }
        }
        proof {
            assert(coords@ =~= selected_coords(lists, c@));
            assert forall|j: int| 0 <= j < ndim implies #[trigger] coords@[j] < shape@[j] by {
                assert(c@[j] < lists[j].len());
            }
            lemma_ravel_bounds(shape@, coords@);
        }
        let flat = ravel_index(shape, &strides, &coords);
        out.push(flat);
    }
    Some(out)
}

/// What an index expression reads from an array of shape `shape`: the
/// resolved components, and the flat positions of the selected elements in
/// row-major order over the selection (`None` when their number overflows).
pub fn index_positions(shape: &[usize], specs: &[IndexSpec]) -> (r: Result<
    (Vec<IndexComp>, Option<Vec<usize>>),
    IndexError,
>)
    requires
        valid_shape(shape@),
        dims_fit_isize(shape@),
    ensures
        r matches Err(e) ==> resolve_index(shape@, specs@.map_values(|s: IndexSpec| s@)) == Err::<
            Seq<Selection>,
            IndexError,
        >(e),
        r matches Ok((comps, _)) ==> resolve_index(shape@, specs@.map_values(|s: IndexSpec| s@))
            == Ok::<Seq<Selection>, IndexError>(comps@.map_values(|c: IndexComp| c@)),
        r matches Ok((comps, pos)) ==> (pos is Some <==> prefix_products_fit(
            selection_sizes(comps@.map_values(|c: IndexComp| c@)),
        )),
        r matches Ok((comps, Some(p))) ==> p.len() == shape_size(
            selection_sizes(comps@.map_values(|c: IndexComp| c@)),
        ) && forall|o: int|
            0 <= o < p.len() ==> #[trigger] p@[o] == selection_position(
                shape@,
                comps@.map_values(|c: IndexComp| c@),
                o,
            ) && p@[o] < shape_size(shape@),
{
    let comps = match parse_index(shape, specs) {
        Ok(c) => c,
        Err(e) => {
            return Err(e);
        },
    };
    proof {
        lemma_resolved_index_fits(shape@, specs@.map_values(|s: IndexSpec| s@));
    }
    let pos = selection_positions(shape, &comps);
    Ok((comps, pos))
}

} // verus!
