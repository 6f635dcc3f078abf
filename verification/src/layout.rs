//! Reshaping, transposition and diagonal layouts of row-major arrays.

use vstd::prelude::*;
use vstd::arithmetic::div_mod::{
    lemma_fundamental_div_mod, lemma_fundamental_div_mod_converse, lemma_mod_pos_bound,
    lemma_div_pos_is_pos,
};
use vstd::arithmetic::mul::{lemma_mul_inequality, lemma_mul_nonnegative};
use crate::shape::{
    checked_size, lemma_positive_size_dims, lemma_size_skip_step, lemma_size_split,
    prefix_products_fit, shape_size,
};

verus! {

/// Why a requested shape cannot be used for a reshape.
#[derive(Debug, PartialEq, Eq, Structural)]
pub enum ReshapeError {
    /// More than one dimension is `-1`.
    MultipleUnknown,
    /// A dimension below `-1`.
    NegativeDimension,
    /// The requested shape does not hold the array's element count.
    SizeMismatch,
    /// The product of the requested dimensions overflows.
    Overflow,
}

/// Why an axis argument was refused.
#[derive(Debug, PartialEq, Eq, Structural)]
pub enum AxisError {
    OutOfBounds { axis: usize, ndim: usize },
}

/// Check that `axis` is an axis of an `ndim`-dimensional array.
pub fn check_axis(ndim: usize, axis: usize) -> (r: Result<(), AxisError>)
    ensures
        r is Ok <==> axis < ndim,
        r matches Err(e) ==> e == (AxisError::OutOfBounds { axis, ndim }),
{
    if axis >= ndim {
        return Err(AxisError::OutOfBounds { axis, ndim });
    }
    Ok(())
}

/// Scan of the requested dimensions in order: the product of the known
/// ones, or the first problem met (a second `-1`, a dimension below `-1`, or
/// a product beyond the range of `i128`).
pub open spec fn scan_dims(dims: Seq<isize>, seen_unknown: bool, known: int) -> Result<
    int,
    ReshapeError,
>
    decreases dims.len(),
{
    if dims.len() == 0 {
        Ok(known)
    } else {
        let d = dims[0];
        if d == -1 {
            if seen_unknown {
                Err(ReshapeError::MultipleUnknown)
            } else {
                scan_dims(dims.drop_first(), true, known)
            }
        } else if d < 0 {
            Err(ReshapeError::NegativeDimension)
        } else if known * d > i128::MAX {
            Err(ReshapeError::Overflow)
        } else {
            scan_dims(dims.drop_first(), seen_unknown, known * d)
        }
    }
}

/// The requested shape with the unknown dimension (if any) set to `fill`.
pub open spec fn fill_unknown(dims: Seq<isize>, fill: int) -> Seq<usize> {
    dims.map_values(
        |d: isize|
            if d == -1 {
                fill as usize
            } else {
                d as usize
            },
    )
}

/// Shape that a reshape of an array of `total` elements to `dims` produces:
/// a `-1` stands for the dimension that makes the element count come out;
/// the element count must be preserved.
pub open spec fn reshape_result(total: usize, dims: Seq<isize>) -> Result<Seq<usize>, ReshapeError> {
    match scan_dims(dims, false, 1) {
        Err(e) => Err(e),
        Ok(known) => {
            let has_unknown = dims.contains(-1isize);
            if has_unknown && (known == 0 || (total as int) % known != 0) {
                Err(ReshapeError::SizeMismatch)
            } else {
                let resolved = if has_unknown {
                    fill_unknown(dims, (total as int) / known)
                } else {
                    fill_unknown(dims, 1)
                };
                if !prefix_products_fit(resolved) {
                    Err(ReshapeError::Overflow)
                } else if shape_size(resolved) != total {
                    Err(ReshapeError::SizeMismatch)
                } else {
                    Ok(resolved)
                }
            }
        },
    }
}

proof fn lemma_scan_nonneg(dims: Seq<isize>, seen: bool, known: int)
    requires
        known >= 0,
    ensures
        scan_dims(dims, seen, known) matches Ok(k) ==> k >= 0,
    decreases dims.len(),
{
    if dims.len() > 0 {
        let d = dims[0];
        if d >= 0 {
            lemma_mul_nonnegative(known, d as int);
        }
        lemma_scan_nonneg(dims.drop_first(), if d == -1 {
            true
        } else {
            seen
        }, if d >= 0 {
            known * d
        } else {
            known
        });
    }
}

/// Resolve a requested shape (where one dimension may be `-1`) for an array
/// of `total` elements.
pub fn resolve_reshape(total: usize, dims: &[isize]) -> (r: Result<Vec<usize>, ReshapeError>)
    ensures
        r matches Ok(v) ==> reshape_result(total, dims@) == Ok::<Seq<usize>, ReshapeError>(v@),
        r matches Err(e) ==> reshape_result(total, dims@) == Err::<Seq<usize>, ReshapeError>(e),
        r matches Ok(v) ==> shape_size(v@) == total,
{
    let mut known: i128 = 1;
    let mut unknown_at: Option<usize> = None;
    proof {
        assert(dims@.skip(0) =~= dims@);
    }
    for j in 0..dims.len()
        invariant
            known >= 0,
            scan_dims(dims@, false, 1) == scan_dims(dims@.skip(j as int), unknown_at is Some, known as int),
            unknown_at matches Some(p) ==> p < j && dims@[p as int] == -1,
            unknown_at is None ==> forall|t: int| 0 <= t < j ==> #[trigger] dims@[t] != -1,
    {
        proof {
            assert(dims@.skip(j as int).drop_first() =~= dims@.skip(j + 1));
            assert(dims@.skip(j as int)[0] == dims@[j as int]);
        }
        let d = dims[j];
        if d == -1 {
            if unknown_at.is_some() {
                return Err(ReshapeError::MultipleUnknown);
            }
            unknown_at = Some(j);
        } else if d < 0 {
            return Err(ReshapeError::NegativeDimension);
        } else {
            let dd: i128 = d as i128;
            proof {
                lemma_mul_nonnegative(known as int, dd as int);
            }
            match known.checked_mul(dd) {
                Some(v) => {
                    known = v;
                },
                None => {
                    return Err(ReshapeError::Overflow);
                },
            }
        }
    }
    proof {
        assert(dims@.skip(dims.len() as int) =~= Seq::<isize>::empty());
    }
    let has_unknown = unknown_at.is_some();
    proof {
        if let Some(p) = unknown_at {
            assert(dims@.contains(-1isize)) by {
                assert(dims@[p as int] == -1);
            }
        } else {
            assert(!dims@.contains(-1isize));
        }
    }
    let mut fill: usize = 1;
    if has_unknown {
        let t: i128 = total as i128;
        if known == 0 || t % known != 0 {
            return Err(ReshapeError::SizeMismatch);
        }
        let q: i128 = t / known;
        proof {
            lemma_div_pos_is_pos(t as int, known as int);
            assert(q <= t) by (nonlinear_arith)
                requires
                    q == t / known,
                    known >= 1,
                    t >= 0,
            ;
        }
        fill = q as usize;
    }
    let mut resolved: Vec<usize> = Vec::new();
    for j in 0..dims.len()
        invariant
            resolved.len() == j,
            forall|t: int|
                0 <= t < j ==> #[trigger] resolved@[t] == (if dims@[t] == -1 {
                    fill
                } else {
                    dims@[t] as usize
                }),
    {
        let d = dims[j];
        if d == -1 {
            resolved.push(fill);
        } else {
            resolved.push(d as usize);
        }
    }
    proof {
        assert(resolved@ =~= fill_unknown(dims@, fill as int));
        if has_unknown {
            assert(fill as int == total as int / known as int);
        }
    }
    match checked_size(&resolved) {
        None => Err(ReshapeError::Overflow),
        Some(n) => {
            if n != total {
                Err(ReshapeError::SizeMismatch)
            } else {
                Ok(resolved)
            }
        },
    }
}

/// Flat position of a `rows x cols` matrix read into position `o` of its
/// transpose.
pub open spec fn transpose_source(rows: int, cols: int, o: int) -> int {
    (o % rows) * cols + o / rows
}

/// Source positions of the transpose of a `rows x cols` row-major matrix:
/// entry `o` of the result is the element at row `o % rows`, column
/// `o / rows` of the matrix.
pub fn transpose_indices(rows: usize, cols: usize) -> (map: Vec<usize>)
    requires
        rows * cols <= usize::MAX,
    ensures
        map.len() == rows * cols,
        forall|o: int|
            0 <= o < map.len() ==> #[trigger] map@[o] == transpose_source(rows as int, cols as int, o)
                && map@[o] < rows * cols,
{
    let total: usize = rows * cols;
    let mut map: Vec<usize> = Vec::new();
    for o in 0..total
        invariant
            total == rows * cols,
            map.len() == o,
            forall|p: int|
                0 <= p < o ==> #[trigger] map@[p] == transpose_source(rows as int, cols as int, p)
                    && map@[p] < rows * cols,
    {
        assert(rows > 0) by {
            if rows == 0 {
                assert(rows * cols == 0);
            }
        }
        proof {
            lemma_fundamental_div_mod(o as int, rows as int);
            lemma_mod_pos_bound(o as int, rows as int);
            lemma_div_pos_is_pos(o as int, rows as int);
            let q = o as int / rows as int;
            let r = o as int % rows as int;
            if q >= cols {
                lemma_mul_inequality(cols as int, q, rows as int);
                assert(o as int >= rows * cols) by (nonlinear_arith)
                    requires
                        o == rows * q + r,
                        r >= 0,
                        cols * rows <= q * rows,
                ;
            }
            lemma_mul_inequality(r, rows - 1, cols as int);
            assert((rows - 1) * cols + q < rows * cols) by (nonlinear_arith)
                requires
                    q < cols,
            ;
        }
        let v: usize = (o % rows) * cols + o / rows;
        map.push(v);
    }
    map
}

/// Entry `(j, i)` of the transpose of a `rows x cols` matrix is entry
/// `(i, j)` of the matrix, for every shape (square ones included).
pub proof fn lemma_transpose_entry(rows: int, cols: int, i: int, j: int)
    requires
        0 <= i < rows,
        0 <= j < cols,
    ensures
        0 <= j * rows + i < rows * cols,
        transpose_source(rows, cols, j * rows + i) == i * cols + j,
{
    let o = j * rows + i;
    lemma_fundamental_div_mod_converse(o, rows, j, i);
    assert(j * rows + i < rows * cols) by (nonlinear_arith)
        requires
            0 <= i < rows,
            0 <= j < cols,
    ;
    assert(0 <= j * rows) by (nonlinear_arith)
        requires
            0 <= j,
            0 <= rows,
    ;
}

/// Transposing twice restores every position: the transpose of the
/// transpose is the matrix itself.
pub proof fn lemma_transpose_involution(rows: int, cols: int, o: int)
    requires
        rows > 0,
        cols > 0,
        0 <= o < rows * cols,
    ensures
        transpose_source(rows, cols, transpose_source(cols, rows, o)) == o,
{
    let q = o / cols;
    let r = o % cols;
    lemma_fundamental_div_mod(o, cols);
    lemma_mod_pos_bound(o, cols);
    lemma_div_pos_is_pos(o, cols);
    if q >= rows {
        lemma_mul_inequality(rows, q, cols);
        assert(o >= rows * cols) by (nonlinear_arith)
            requires
                o == cols * q + r,
                r >= 0,
                rows * cols <= q * cols,
        ;
    }
    let p = r * rows + q;
    assert(p == q + rows * r) by (nonlinear_arith)
        requires
            p == r * rows + q,
    ;
    lemma_fundamental_div_mod_converse(p, rows, r, q);
    assert(o == q * cols + r) by (nonlinear_arith)
        requires
            o == cols * q + r,
    ;
}

/// Flat positions of the main diagonal of a `rows x cols` matrix.
pub fn diag_positions(rows: usize, cols: usize) -> (out: Vec<usize>)
    requires
        rows * cols <= usize::MAX,
    ensures
        out.len() == (if rows <= cols {
            rows
        } else {
            cols
        }),
        forall|i: int| 0 <= i < out.len() ==> #[trigger] out@[i] == i * cols + i && out@[i] < rows * cols,
{
    let n: usize = if rows <= cols {
        rows
    } else {
        cols
    };
    let mut out: Vec<usize> = Vec::new();
    for i in 0..n
        invariant
            n <= rows,
            n <= cols,
            rows * cols <= usize::MAX,
            out.len() == i,
            forall|t: int| 0 <= t < i ==> #[trigger] out@[t] == t * cols + t && out@[t] < rows * cols,
    {
        proof {
            lemma_mul_inequality(i as int, rows - 1, cols as int);
            assert((rows - 1) * cols + i < rows * cols) by (nonlinear_arith)
                requires
                    i < cols,
            ;
        }
        out.push(i * cols + i);
    }
    out
}

/// Flat positions of the ones of an `n x cols` matrix whose `k`-th diagonal
/// (above the main one for positive `k`, below it for negative `k`) is one,
/// row by row.
pub open spec fn eye_positions_spec(n: int, cols: int, k: int) -> Seq<usize> {
    let first = if k < 0 {
        -k
    } else {
        0
    };
    let end = if n < cols - k {
        n
    } else {
        cols - k
    };
    let count = if end > first {
        end - first
    } else {
        0
    };
    Seq::new(count as nat, |t: int| ((first + t) * cols + first + t + k) as usize)
}

/// Flat positions of the ones of `eye(n, cols, k)`, row by row.
pub fn eye_positions(n: usize, cols: usize, k: isize) -> (out: Vec<usize>)
    requires
        n * cols <= usize::MAX,
        k > isize::MIN,
    ensures
        out@ == eye_positions_spec(n as int, cols as int, k as int),
        forall|t: int| 0 <= t < out.len() ==> #[trigger] out@[t] < n * cols,
{
    let mut out: Vec<usize> = Vec::new();
    let ghost first: int = if k < 0 {
        -k
    } else {
        0
    };
    for i in 0..n
        invariant
            n * cols <= usize::MAX,
            k > isize::MIN,
            first == (if k < 0 {
                -k
            } else {
                0
            }),
            out.len() == (if i <= first {
                0
            } else if i < cols - k {
                i - first
            } else if cols - k > first {
                cols - k - first
            } else {
                0
            }),
            forall|t: int|
                0 <= t < out.len() ==> #[trigger] out@[t] == ((first + t) * cols + first + t + k) as usize,
            forall|t: int| 0 <= t < out.len() ==> #[trigger] out@[t] < n * cols,
    {
        let in_diag: bool = if k < 0 {
            let row0: usize = (0 - k) as usize;
            i >= row0 && i - row0 < cols
        } else {
            (k as usize) < cols && i < cols - (k as usize)
        };
        if in_diag {
            let j: usize = if k < 0 {
                i - ((0 - k) as usize)
            } else {
                i + (k as usize)
            };
            proof {
                lemma_mul_inequality(i as int, n - 1, cols as int);
                assert((n - 1) * cols + j < n * cols) by (nonlinear_arith)
                    requires
                        j < cols,
                ;
            }
            out.push(i * cols + j);
        }
    }
    proof {
        assert(out@ =~= eye_positions_spec(n as int, cols as int, k as int));
    }
    out
}

/// Flat position of entry `(i, j)` of a row-major matrix with `n` columns
/// (the row count `_m` does not enter).
pub fn row_major(_m: usize, n: usize, i: usize, j: usize) -> (p: usize)
    requires
        i * n + j <= usize::MAX,
    ensures
        p == i * n + j,
{
    i * n + j
}

/// The requested dimensions with entry `u` set to `v`.
pub open spec fn with_entry(dims: Seq<isize>, u: int, v: int) -> Seq<usize> {
    Seq::new(dims.len(), |i: int| if i == u { v as usize } else { dims[i] as usize })
}

/// A reshape with one `-1` fills it in, wherever it stands: when `dims` has
/// its only `-1` at position `u`, every other entry is non-negative, the
/// product `q` of the other entries is positive, fits a `usize` and divides
/// `total`, and the filled shape is indexable, the result is `dims` with
/// `total / q` at `u`.
pub proof fn lemma_reshape_fills_unknown(total: usize, dims: Seq<isize>, u: int)
    requires
        0 <= u < dims.len(),
        dims[u] == -1,
        forall|i: int| 0 <= i < dims.len() && i != u ==> #[trigger] dims[i] >= 0,
        0 < shape_size(with_entry(dims, u, 1)) <= usize::MAX,
        (total as int) % (shape_size(with_entry(dims, u, 1)) as int) == 0,
        prefix_products_fit(with_entry(dims, u, total as int / shape_size(with_entry(dims, u, 1)) as int)),
    ensures
        reshape_result(total, dims) == Ok::<Seq<usize>, ReshapeError>(
            with_entry(dims, u, total as int / shape_size(with_entry(dims, u, 1)) as int),
        ),
{
    let known = with_entry(dims, u, 1);
    let q = shape_size(known) as int;
    let v = total as int / q;
    let filled = with_entry(dims, u, v);
    lemma_positive_size_dims(known);
    assert forall|i: int| 0 <= i < dims.len() implies (#[trigger] dims[i] == -1 || dims[i] >= 1) by {
        if i != u {
            assert(known[i] >= 1);
        }
    }
    assert forall|i: int, k: int| 0 <= i < k < dims.len() implies !(#[trigger] dims[i] == -1
        && #[trigger] dims[k] == -1) by {
        if i != u {
            assert(dims[i] >= 0);
        } else {
            assert(dims[k] >= 0);
        }
    }
    assert(known_of(dims) =~= known);
    lemma_scan_known(dims, false, 1);
    assert(scan_dims(dims, false, 1) == Ok::<int, ReshapeError>(q));
    assert(dims.contains(-1isize)) by {
        assert(dims[u] == -1isize);
    }
    vstd::arithmetic::div_mod::lemma_fundamental_div_mod(total as int, q);
    assert(0 <= v) by {
        vstd::arithmetic::div_mod::lemma_div_pos_is_pos(total as int, q);
    }
    assert(v <= total) by {
        vstd::arithmetic::div_mod::lemma_div_is_ordered_by_denominator(total as int, 1, q);
    }
    assert(fill_unknown(dims, v) =~= filled);
    // The filled shape holds `total` elements.
    lemma_size_split(known, u);
    lemma_size_skip_step(known, u);
    lemma_size_split(filled, u);
    lemma_size_skip_step(filled, u);
    assert(filled.take(u) =~= known.take(u));
    assert(filled.skip(u + 1) =~= known.skip(u + 1));
    let a = shape_size(known.take(u)) as int;
    let b = shape_size(known.skip(u + 1)) as int;
    assert(q == a * (1 * b)) by (nonlinear_arith)
        requires
            q == a * shape_size(known.skip(u)),
            shape_size(known.skip(u)) == 1 * b,
    ;
    assert(shape_size(filled) == a * (v * b)) by (nonlinear_arith)
        requires
            shape_size(filled) == a * shape_size(filled.skip(u)),
            shape_size(filled.skip(u)) == filled[u] * b,
            filled[u] == v,
    ;
    assert(a * (v * b) == v * q) by (nonlinear_arith)
        requires
            q == a * (1 * b),
    ;
    assert(total as int == q * v + (total as int) % q);
    assert(shape_size(filled) == total) by (nonlinear_arith)
        requires
            shape_size(filled) == v * q,
            total == q * v,
    ;
}

/// The requested dimensions with each `-1` read as 1.
pub open spec fn known_of(d: Seq<isize>) -> Seq<usize> {
    d.map_values(|x: isize| if x == -1 { 1usize } else { x as usize })
}

proof fn lemma_size_at_least_one(s: Seq<usize>)
    requires
        forall|i: int| 0 <= i < s.len() ==> #[trigger] s[i] >= 1,
    ensures
        shape_size(s) >= 1,
    decreases s.len(),
{
    if s.len() > 0 {
        let t = s.drop_first();
        assert forall|i: int| 0 <= i < t.len() implies #[trigger] t[i] >= 1 by {
            assert(t[i] == s[i + 1]);
        }
        lemma_size_at_least_one(t);
        assert(s[0] as nat * shape_size(t) >= 1) by (nonlinear_arith)
            requires
                s[0] >= 1,
                shape_size(t) >= 1,
        ;
    }
}

/// Scanning dimensions with at most one `-1` (none once one was seen) and
/// positive other entries multiplies the known entries.
proof fn lemma_scan_known(d: Seq<isize>, seen: bool, acc: int)
    requires
        acc >= 1,
        forall|i: int| 0 <= i < d.len() ==> (#[trigger] d[i] == -1 || d[i] >= 1),
        seen ==> forall|i: int| 0 <= i < d.len() ==> #[trigger] d[i] != -1,
        forall|i: int, k: int| 0 <= i < k < d.len() ==> !(#[trigger] d[i] == -1 && #[trigger] d[k] == -1),
        acc * shape_size(known_of(d)) <= usize::MAX,
    ensures
        scan_dims(d, seen, acc) == Ok::<int, ReshapeError>(acc * shape_size(known_of(d))),
    decreases d.len(),
{
    if d.len() == 0 {
        assert(known_of(d) =~= Seq::<usize>::empty());
        assert(shape_size(known_of(d)) == 1);
        assert(scan_dims(d, seen, acc) == Ok::<int, ReshapeError>(acc));
        let one = shape_size(known_of(d)) as int;
        assert(acc * one == acc) by (nonlinear_arith)
            requires
                one == 1,
        ;
    } else {
        let rest = d.drop_first();
        let d0 = d[0];
        assert(known_of(d) =~= seq![known_of(d)[0]] + known_of(rest));
        assert(known_of(d).drop_first() =~= known_of(rest));
        let kr = known_of(rest);
        assert forall|i: int| 0 <= i < kr.len() implies #[trigger] kr[i] >= 1 by {
            assert(rest[i] == d[i + 1]);
        }
        lemma_size_at_least_one(kr);
        let sr = shape_size(kr) as int;
        assert forall|i: int| 0 <= i < rest.len() implies (#[trigger] rest[i] == -1 || rest[i] >= 1) by {
            assert(rest[i] == d[i + 1]);
        }
        assert forall|i: int, k: int| 0 <= i < k < rest.len() implies !(#[trigger] rest[i] == -1
            && #[trigger] rest[k] == -1) by {
            assert(rest[i] == d[i + 1] && rest[k] == d[k + 1]);
        }
        if d0 == -1 {
            assert(!seen) by {
                if seen {
                    assert(d[0] != -1);
                }
            }
            assert forall|i: int| 0 <= i < rest.len() implies #[trigger] rest[i] != -1 by {
                assert(rest[i] == d[i + 1]);
                assert(!(d[0] == -1 && d[i + 1] == -1));
            }
            assert(known_of(d)[0] == 1);
            assert(shape_size(known_of(d)) == 1 * sr);
            assert(scan_dims(d, seen, acc) == scan_dims(rest, true, acc));
            lemma_scan_known(rest, true, acc);
            assert(scan_dims(d, seen, acc) == Ok::<int, ReshapeError>(acc * sr));
            let ss1 = shape_size(known_of(d)) as int;
            assert(acc * ss1 == acc * sr) by (nonlinear_arith)
                requires
                    ss1 == 1 * sr,
            ;
        } else {
            assert(d0 >= 1);
            assert(known_of(d)[0] == d0 as usize);
            assert(shape_size(known_of(d)) == d0 * sr);
            if seen {
                assert forall|i: int| 0 <= i < rest.len() implies #[trigger] rest[i] != -1 by {
                    assert(rest[i] == d[i + 1]);
                }
            }
            assert(acc * d0 <= acc * (d0 * sr)) by (nonlinear_arith)
                requires
                    acc >= 1,
                    d0 >= 1,
                    sr >= 1,
            ;
            assert((acc * d0) * sr == acc * (d0 * sr)) by (nonlinear_arith);
            assert(acc * d0 >= 1) by (nonlinear_arith)
                requires
                    acc >= 1,
                    d0 >= 1,
            ;
            assert(acc * d0 <= i128::MAX);
            assert(scan_dims(d, seen, acc) == scan_dims(rest, seen, acc * d0));
            lemma_scan_known(rest, seen, acc * d0);
            assert(scan_dims(d, seen, acc) == Ok::<int, ReshapeError>((acc * d0) * sr));
            let ss = shape_size(known_of(d)) as int;
            assert(acc * ss == (acc * d0) * sr) by (nonlinear_arith)
                requires
                    ss == d0 * sr,
            ;
        }
    }
}

} // verus!
