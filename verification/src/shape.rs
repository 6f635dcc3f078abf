//! Row-major shape arithmetic: sizes, strides, and the correspondence
//! between flat positions and multi-indices.

use vstd::prelude::*;
use vstd::arithmetic::div_mod::*;
use vstd::arithmetic::mul::*;

verus! {

/// Number of elements of an array of the given shape: the product of its
/// dimensions (1 for the empty shape).
pub open spec fn shape_size(shape: Seq<usize>) -> nat
    decreases shape.len(),
{
    if shape.len() == 0 {
        1
    } else {
        shape[0] as nat * shape_size(shape.drop_first())
    }
}

/// Every running product of the dimensions, taken from the first axis on,
/// fits in a `usize`.
pub open spec fn prefix_products_fit(shape: Seq<usize>) -> bool {
    forall|i: int| 0 <= i <= shape.len() ==> #[trigger] shape_size(shape.take(i)) <= usize::MAX
}

/// Every product of the trailing dimensions (all but at least the first axis)
/// fits in a `usize`.
pub open spec fn suffix_products_fit(shape: Seq<usize>) -> bool {
    forall|i: int| 1 <= i <= shape.len() ==> #[trigger] shape_size(shape.skip(i)) <= usize::MAX
}

/// The row-major stride of axis `k`: the number of elements spanned by one
/// step along that axis.
pub open spec fn row_major_stride(shape: Seq<usize>, k: int) -> nat {
    shape_size(shape.skip(k + 1))
}

/// The row-major strides of a shape.
pub open spec fn row_major_strides(shape: Seq<usize>) -> Seq<usize> {
    Seq::new(shape.len(), |k: int| row_major_stride(shape, k) as usize)
}

/// `coords` is a multi-index inside `shape`.
pub open spec fn in_bounds(shape: Seq<usize>, coords: Seq<usize>) -> bool {
    &&& coords.len() == shape.len()
    &&& forall|k: int| 0 <= k < shape.len() ==> #[trigger] coords[k] < shape[k]
}

/// Row-major flat position of a multi-index.
pub open spec fn ravel(shape: Seq<usize>, coords: Seq<usize>) -> int
    decreases shape.len(),
{
    if shape.len() == 0 {
        0
    } else {
        coords[0] * shape_size(shape.drop_first()) + ravel(shape.drop_first(), coords.drop_first())
    }
}

/// Multi-index of a row-major flat position.
pub open spec fn unravel(shape: Seq<usize>, flat: int) -> Seq<usize>
    decreases shape.len(),
{
    if shape.len() == 0 {
        Seq::empty()
    } else {
        let inner = shape_size(shape.drop_first()) as int;
        seq![(flat / inner) as usize] + unravel(shape.drop_first(), flat % inner)
    }
}

/// The size of a shape is the product of the sizes of any split of it.
pub proof fn lemma_size_split(shape: Seq<usize>, i: int)
    requires
        0 <= i <= shape.len(),
    ensures
        shape_size(shape) == shape_size(shape.take(i)) * shape_size(shape.skip(i)),
    decreases i,
{
    if i == 0 {
        assert(shape.take(0) =~= Seq::<usize>::empty());
        assert(shape.skip(0) =~= shape);
        assert(shape_size(Seq::<usize>::empty()) == 1);
        lemma_mul_basics(shape_size(shape) as int);
    } else {
        let tail = shape.drop_first();
        lemma_size_split(tail, i - 1);
        assert(shape.take(i).drop_first() =~= tail.take(i - 1));
        assert(shape.skip(i) =~= tail.skip(i - 1));
        assert(shape.take(i)[0] == shape[0]);
        lemma_mul_is_associative(
            shape[0] as int,
            shape_size(tail.take(i - 1)) as int,
            shape_size(tail.skip(i - 1)) as int,
        );
    }
}

/// Extending a prefix by one dimension multiplies its size by that dimension.
pub proof fn lemma_size_take_step(shape: Seq<usize>, i: int)
    requires
        0 <= i < shape.len(),
    ensures
        shape_size(shape.take(i + 1)) == shape_size(shape.take(i)) * shape[i],
{
    let t = shape.take(i + 1);
    lemma_size_split(t, i);
    assert(t.take(i) =~= shape.take(i));
    assert(t.skip(i) =~= seq![shape[i]]);
    assert(seq![shape[i]].drop_first() =~= Seq::<usize>::empty());
    assert(shape_size(Seq::<usize>::empty()) == 1);
    let one = seq![shape[i]];
    assert(one.len() == 1 && one[0] == shape[i]);
    assert(shape_size(one) == one[0] * shape_size(one.drop_first()));
    assert(shape_size(one) == shape[i]);
}

/// Dropping one more leading dimension divides the size by that dimension.
pub proof fn lemma_size_skip_step(shape: Seq<usize>, i: int)
    requires
        0 <= i < shape.len(),
    ensures
        shape_size(shape.skip(i)) == shape[i] * shape_size(shape.skip(i + 1)),
{
    assert(shape.skip(i).drop_first() =~= shape.skip(i + 1));
    assert(shape.skip(i)[0] == shape[i]);
}

/// A positive size means every dimension is positive.
pub proof fn lemma_positive_size_dims(shape: Seq<usize>)
    requires
        shape_size(shape) > 0,
    ensures
        forall|k: int| 0 <= k < shape.len() ==> #[trigger] shape[k] > 0,
    decreases shape.len(),
{
    if shape.len() > 0 {
        let tail = shape.drop_first();
        if shape[0] == 0 {
            lemma_mul_basics(shape_size(tail) as int);
        }
        if shape_size(tail) == 0 {
            lemma_mul_basics(shape[0] as int);
        }
        lemma_positive_size_dims(tail);
        assert forall|k: int| 0 <= k < shape.len() implies #[trigger] shape[k] > 0 by {
            if k > 0 {
                assert(shape[k] == tail[k - 1]);
            }
        }
    }
}

/// Every multi-index inside the shape lands on a flat position inside it.
pub proof fn lemma_ravel_bounds(shape: Seq<usize>, coords: Seq<usize>)
    requires
        in_bounds(shape, coords),
    ensures
        0 <= ravel(shape, coords) < shape_size(shape),
    decreases shape.len(),
{
    if shape.len() > 0 {
        let tail = shape.drop_first();
        let ct = coords.drop_first();
        assert forall|k: int| 0 <= k < tail.len() implies #[trigger] ct[k] < tail[k] by {
            assert(ct[k] == coords[k + 1]);
            assert(tail[k] == shape[k + 1]);
        }
        lemma_ravel_bounds(tail, ct);
        let p = shape_size(tail) as int;
        let r = ravel(tail, ct);
        let c = coords[0] as int;
        assert(c <= shape[0] - 1);
        lemma_mul_inequality(c, shape[0] - 1, p);
        lemma_mul_is_distributive_sub_other_way(p, shape[0] as int, 1);
        lemma_mul_nonnegative(c, p);
        assert((shape[0] - 1) * p == shape[0] * p - p) by (nonlinear_arith);
    }
}

/// Unravelling a flat position inside the shape gives a multi-index inside
/// the shape that ravels back to the same position.
pub proof fn lemma_unravel_ravel(shape: Seq<usize>, flat: int)
    requires
        0 <= flat < shape_size(shape),
    ensures
        in_bounds(shape, unravel(shape, flat)),
        ravel(shape, unravel(shape, flat)) == flat,
    decreases shape.len(),
{
    if shape.len() > 0 {
        let tail = shape.drop_first();
        let p = shape_size(tail) as int;
        if p == 0 {
            lemma_mul_basics(shape[0] as int);
        }
        assert(p > 0);
        let q = flat / p;
        let r = flat % p;
        lemma_fundamental_div_mod(flat, p);
        lemma_mod_pos_bound(flat, p);
        lemma_div_pos_is_pos(flat, p);
        if q >= shape[0] {
            lemma_mul_inequality(shape[0] as int, q, p);
            assert(shape_size(shape) == shape[0] * p);
            assert(flat >= q * p) by (nonlinear_arith)
                requires
                    flat == p * q + r,
                    r >= 0,
            ;
        }
        assert(q < shape[0]);
        lemma_unravel_ravel(tail, r);
        let u = unravel(shape, flat);
        let ut = unravel(tail, r);
        assert(u =~= seq![q as usize] + ut);
        assert(u.drop_first() =~= ut);
        assert forall|k: int| 0 <= k < shape.len() implies #[trigger] u[k] < shape[k] by {
            if k > 0 {
                assert(u[k] == ut[k - 1]);
                assert(shape[k] == tail[k - 1]);
            }
        }
        assert(flat == q * p + r) by (nonlinear_arith)
            requires
                flat == p * q + r,
        ;
    }
}

/// Ravelling a multi-index inside the shape and unravelling the result gives
/// the multi-index back.
pub proof fn lemma_ravel_unravel(shape: Seq<usize>, coords: Seq<usize>)
    requires
        in_bounds(shape, coords),
    ensures
        unravel(shape, ravel(shape, coords)) == coords,
    decreases shape.len(),
{
    if shape.len() > 0 {
        let tail = shape.drop_first();
        let ct = coords.drop_first();
        assert forall|k: int| 0 <= k < tail.len() implies #[trigger] ct[k] < tail[k] by {
            assert(ct[k] == coords[k + 1]);
            assert(tail[k] == shape[k + 1]);
        }
        lemma_ravel_bounds(tail, ct);
        lemma_ravel_unravel(tail, ct);
        let p = shape_size(tail) as int;
        let r = ravel(tail, ct);
        let c = coords[0] as int;
        lemma_fundamental_div_mod_converse(c * p + r, p, c, r);
        let u = unravel(shape, ravel(shape, coords));
        assert(u =~= seq![c as usize] + unravel(tail, r));
        assert(u =~= coords);
    }
}


/// A shape whose size and strides are all representable: exactly the shapes
/// for which computing the element count and the row-major strides does not
/// overflow.
pub open spec fn valid_shape(shape: Seq<usize>) -> bool {
    prefix_products_fit(shape) && suffix_products_fit(shape)
}

pub proof fn lemma_valid_shape_size(shape: Seq<usize>)
    requires
        prefix_products_fit(shape),
    ensures
        shape_size(shape) <= usize::MAX,
{
    assert(shape.take(shape.len() as int) =~= shape);
    assert(shape_size(shape.take(shape.len() as int)) <= usize::MAX);
}

/// The multi-index restricted to the axes from `k` on stays inside the
/// correspondingly restricted shape.
pub proof fn lemma_in_bounds_skip(shape: Seq<usize>, coords: Seq<usize>, k: int)
    requires
        in_bounds(shape, coords),
        0 <= k <= shape.len(),
    ensures
        in_bounds(shape.skip(k), coords.skip(k)),
{
    assert forall|j: int| 0 <= j < shape.skip(k).len() implies #[trigger] coords.skip(k)[j]
        < shape.skip(k)[j] by {
        assert(coords.skip(k)[j] == coords[k + j]);
        assert(shape.skip(k)[j] == shape[k + j]);
    }
}

/// One step of the flat position, read from axis `k`.
pub proof fn lemma_ravel_skip_step(shape: Seq<usize>, coords: Seq<usize>, k: int)
    requires
        0 <= k < shape.len(),
        coords.len() == shape.len(),
    ensures
        ravel(shape.skip(k), coords.skip(k)) == coords[k] * shape_size(shape.skip(k + 1)) + ravel(
            shape.skip(k + 1),
            coords.skip(k + 1),
        ),
{
    assert(shape.skip(k).drop_first() =~= shape.skip(k + 1));
    assert(coords.skip(k).drop_first() =~= coords.skip(k + 1));
}

/// Element count of a shape, or `None` when a running product of its
/// dimensions overflows.
pub fn checked_size(shape: &[usize]) -> (size: Option<usize>)
    ensures
        size is Some <==> prefix_products_fit(shape@),
        size matches Some(n) ==> n == shape_size(shape@),
{
    let n = shape.len();
    let mut acc: usize = 1;
    proof {
        assert(shape@.take(0) =~= Seq::<usize>::empty());
    }
    for i in 0..n
        invariant
            n == shape.len(),
            acc == shape_size(shape@.take(i as int)),
            forall|j: int| 0 <= j <= i ==> #[trigger] shape_size(shape@.take(j)) <= usize::MAX,
    {
        proof {
            lemma_size_take_step(shape@, i as int);
        }
        match acc.checked_mul(shape[i]) {
            Some(v) => {
                acc = v;
            },
            None => {
                assert(shape_size(shape@.take(i + 1)) > usize::MAX);
                return None;
            },
        }
    }
    proof {
        assert(shape@.take(n as int) =~= shape@);
    }
    Some(acc)
}

/// A nonempty shape whose size fits has all its trailing sizes fitting too.
pub proof fn lemma_positive_size_suffixes(shape: Seq<usize>)
    requires
        0 < shape_size(shape) <= usize::MAX,
    ensures
        suffix_products_fit(shape),
        forall|i: int| 0 <= i <= shape.len() ==> #[trigger] shape_size(shape.skip(i)) <= shape_size(shape),
{
    assert forall|i: int| 0 <= i <= shape.len() implies #[trigger] shape_size(shape.skip(i))
        <= shape_size(shape) by {
        lemma_size_split(shape, i);
        let a = shape_size(shape.take(i)) as int;
        let b = shape_size(shape.skip(i)) as int;
        if a == 0 {
            lemma_mul_basics(b);
        }
        lemma_mul_inequality(1, a, b);
    }
}

/// Changing one coordinate moves the flat position by the change times the
/// stride of that axis.
pub proof fn lemma_ravel_update(shape: Seq<usize>, coords: Seq<usize>, k: int, v: usize)
    requires
        coords.len() == shape.len(),
        0 <= k < shape.len(),
    ensures
        ravel(shape, coords.update(k, v)) == ravel(shape, coords) + (v - coords[k]) * shape_size(
            shape.skip(k + 1),
        ),
    decreases shape.len(),
{
    let tail = shape.drop_first();
    let u = coords.update(k, v);
    if k == 0 {
        assert(u.drop_first() =~= coords.drop_first());
        assert(shape.skip(1) =~= tail);
        lemma_mul_is_distributive_sub_other_way(shape_size(tail) as int, v as int, coords[0] as int);
    } else {
        assert(u.drop_first() =~= coords.drop_first().update(k - 1, v));
        lemma_ravel_update(tail, coords.drop_first(), k - 1, v);
        assert(tail.skip(k) =~= shape.skip(k + 1));
    }
}

/// A shape no larger than another, axis by axis, has no larger running
/// products.
pub proof fn lemma_size_monotone(a: Seq<usize>, b: Seq<usize>)
    requires
        a.len() == b.len(),
        forall|k: int| 0 <= k < a.len() ==> #[trigger] a[k] <= b[k],
    ensures
        shape_size(a) <= shape_size(b),
    decreases a.len(),
{
    if a.len() > 0 {
        let at = a.drop_first();
        let bt = b.drop_first();
        assert forall|k: int| 0 <= k < at.len() implies #[trigger] at[k] <= bt[k] by {
            assert(at[k] == a[k + 1]);
        }
        lemma_size_monotone(at, bt);
        lemma_mul_inequality(a[0] as int, b[0] as int, shape_size(at) as int);
        lemma_mul_is_commutative(b[0] as int, shape_size(at) as int);
        lemma_mul_is_commutative(b[0] as int, shape_size(bt) as int);
        lemma_mul_inequality(shape_size(at) as int, shape_size(bt) as int, b[0] as int);
    }
}

/// A shape no larger than a valid one, axis by axis, is valid.
pub proof fn lemma_valid_monotone(a: Seq<usize>, b: Seq<usize>)
    requires
        a.len() == b.len(),
        forall|k: int| 0 <= k < a.len() ==> #[trigger] a[k] <= b[k],
        valid_shape(b),
    ensures
        valid_shape(a),
{
    assert forall|i: int| 0 <= i <= a.len() implies #[trigger] shape_size(a.take(i)) <= usize::MAX by {
        assert(shape_size(b.take(i)) <= usize::MAX);
        assert forall|k: int| 0 <= k < a.take(i).len() implies #[trigger] a.take(i)[k] <= b.take(i)[k] by {
            assert(a.take(i)[k] == a[k]);
        }
        lemma_size_monotone(a.take(i), b.take(i));
    }
    assert forall|i: int| 1 <= i <= a.len() implies #[trigger] shape_size(a.skip(i)) <= usize::MAX by {
        assert(shape_size(b.skip(i)) <= usize::MAX);
        assert forall|k: int| 0 <= k < a.skip(i).len() implies #[trigger] a.skip(i)[k] <= b.skip(i)[k] by {
            assert(a.skip(i)[k] == a[i + k]);
        }
        lemma_size_monotone(a.skip(i), b.skip(i));
    }
}

/// Element count of a shape whose running products all fit.
pub fn size_of(shape: &[usize]) -> (size: usize)
    requires
        prefix_products_fit(shape@),
    ensures
        size == shape_size(shape@),
{
    match checked_size(shape) {
        Some(n) => n,
        None => {
            assert(false);
            0
        },
    }
}

/// Whether computing the element count and the strides of `shape` stays
/// within `usize`.
pub fn is_valid_shape(shape: &[usize]) -> (b: bool)
    ensures
        b == valid_shape(shape@),
{
    if checked_size(shape).is_none() {
        return false;
    }
    let n = shape.len();
    let mut acc: usize = 1;
    let mut i: usize = n;
    proof {
        assert(shape@.skip(n as int) =~= Seq::<usize>::empty());
    }
    while i > 1
        invariant
            n == shape.len(),
            1 <= i || n == 0,
            i <= n,
            acc == shape_size(shape@.skip(i as int)),
            forall|j: int| i <= j <= n && j >= 1 ==> #[trigger] shape_size(shape@.skip(j)) <= usize::MAX,
        decreases i,
    {
        proof {
            lemma_size_skip_step(shape@, i - 1);
            lemma_mul_is_commutative(shape[i - 1] as int, acc as int);
        }
        match acc.checked_mul(shape[i - 1]) {
            Some(v) => {
                acc = v;
            },
            None => {
                assert(shape_size(shape@.skip(i - 1)) > usize::MAX);
                return false;
            },
        }
        i = i - 1;
    }
    true
}

/// Row-major strides of a shape: the stride of the last axis is 1 and each
/// other stride is the next one times the next dimension.
pub fn compute_strides(shape: &[usize]) -> (strides: Vec<usize>)
    requires
        suffix_products_fit(shape@),
    ensures
        strides@ == row_major_strides(shape@),
{
    let ndim = shape.len();
    let mut strides: Vec<usize> = vec![1usize; ndim];
    if ndim == 0 {
        proof {
            assert(strides@ =~= row_major_strides(shape@));
        }
        return strides;
    }
    proof {
        assert(shape@.skip(ndim as int) =~= Seq::<usize>::empty());
    }
    let mut i: usize = ndim - 1;
    while i > 0
        invariant
            ndim == shape.len(),
            strides.len() == ndim,
            i < ndim,
            suffix_products_fit(shape@),
            forall|j: int| i <= j < ndim ==> #[trigger] strides[j] == row_major_stride(shape@, j),
        decreases i,
    {
        proof {
            lemma_size_skip_step(shape@, i as int);
            assert(shape_size(shape@.skip(i as int)) <= usize::MAX);
            lemma_mul_is_commutative(shape[i as int] as int, strides[i as int] as int);
        }
        let v: usize = strides[i] * shape[i];
        strides.set(i - 1, v);
        i = i - 1;
    }
    proof {
        assert forall|j: int| 0 <= j < ndim implies #[trigger] row_major_stride(shape@, j)
            <= usize::MAX by {
            assert(shape_size(shape@.skip(j + 1)) <= usize::MAX);
        }
        assert(strides@ =~= row_major_strides(shape@));
    }
    strides
}

/// Row-major flat position of a multi-index, computed from the strides.
pub fn ravel_index(shape: &[usize], strides: &[usize], coords: &[usize]) -> (flat: usize)
    requires
        valid_shape(shape@),
        strides@ == row_major_strides(shape@),
        in_bounds(shape@, coords@),
    ensures
        flat == ravel(shape@, coords@),
        flat < shape_size(shape@),
{
    let n = shape.len();
    let mut acc: usize = 0;
    proof {
        lemma_ravel_bounds(shape@, coords@);
        lemma_valid_shape_size(shape@);
        assert(shape@.skip(0) =~= shape@);
        assert(coords@.skip(0) =~= coords@);
    }
    for k in 0..n
        invariant
            n == shape.len(),
            strides@ == row_major_strides(shape@),
            in_bounds(shape@, coords@),
            valid_shape(shape@),
            acc + ravel(shape@.skip(k as int), coords@.skip(k as int)) == ravel(shape@, coords@),
            ravel(shape@, coords@) < shape_size(shape@),
            shape_size(shape@) <= usize::MAX,
    {
        proof {
            lemma_ravel_skip_step(shape@, coords@, k as int);
            lemma_in_bounds_skip(shape@, coords@, k + 1);
            lemma_ravel_bounds(shape@.skip(k + 1), coords@.skip(k + 1));
            assert(shape_size(shape@.skip(k + 1)) <= usize::MAX);
            assert(strides[k as int] == shape_size(shape@.skip(k + 1)));
            lemma_mul_nonnegative(coords[k as int] as int, strides[k as int] as int);
        }
        acc = acc + coords[k] * strides[k];
    }
    proof {
        assert(shape@.skip(n as int) =~= Seq::<usize>::empty());
    }
    acc
}

/// Multi-index of a row-major flat position, computed from the strides.
pub fn unravel_index(shape: &[usize], strides: &[usize], flat: usize) -> (coords: Vec<usize>)
    requires
        valid_shape(shape@),
        strides@ == row_major_strides(shape@),
        flat < shape_size(shape@),
    ensures
        coords@ == unravel(shape@, flat as int),
        in_bounds(shape@, coords@),
{
    proof {
        lemma_unravel_ravel(shape@, flat as int);
        assert(shape@.skip(0) =~= shape@);
    }
    let n = shape.len();
    let mut coords: Vec<usize> = Vec::new();
    let mut rem: usize = flat;
    for k in 0..n
        invariant
            n == shape.len(),
            strides@ == row_major_strides(shape@),
            valid_shape(shape@),
            coords@ + unravel(shape@.skip(k as int), rem as int) == unravel(shape@, flat as int),
            rem < shape_size(shape@.skip(k as int)),
    {
        let ghost tail = shape@.skip(k + 1);
        proof {
            lemma_size_skip_step(shape@, k as int);
            assert(shape@.skip(k as int).drop_first() =~= tail);
            if shape_size(tail) == 0 {
                lemma_mul_basics(shape[k as int] as int);
            }
            assert(shape_size(shape@.skip(k + 1)) <= usize::MAX);
            assert(strides[k as int] == shape_size(tail));
        }
        let st: usize = strides[k];
        let c: usize = rem / st;
        let ghost old_coords = coords@;
        let ghost old_rem = rem;
        coords.push(c);
        rem = rem % st;
        proof {
            lemma_mod_pos_bound(old_rem as int, st as int);
            assert(coords@ + unravel(tail, rem as int) =~= old_coords + unravel(
                shape@.skip(k as int),
                old_rem as int,
            ));
        }
    }
    proof {
        assert(shape@.skip(n as int) =~= Seq::<usize>::empty());
        assert(coords@ + Seq::<usize>::empty() =~= coords@);
    }
    coords
}

} // verus!
