//! Matrices as nested sequences of rows, and the row-major layout that the
//! executable types store them in.

use core::ops::Add;
use vstd::arithmetic::div_mod::{lemma_fundamental_div_mod, lemma_fundamental_div_mod_converse};
use vstd::arithmetic::mul::lemma_mul_inequality;
use vstd::prelude::*;
use vstd::std_specs::ops::AddSpec;

verus! {

/// Every row of `rows` has `ncols` entries.
pub open spec fn is_grid<T>(rows: Seq<Seq<T>>, ncols: nat) -> bool {
    forall|i: int| 0 <= i < rows.len() ==> (#[trigger] rows[i]).len() == ncols
}

/// Reads a row-major sequence as `nrows` rows of `ncols` entries.
pub open spec fn unflatten<T>(s: Seq<T>, nrows: nat, ncols: nat) -> Seq<Seq<T>> {
    Seq::new(nrows, |i: int| Seq::new(ncols, |j: int| s[i * ncols + j]))
}

/// Lays rows of `ncols` entries out in row-major order.
pub open spec fn flatten<T>(rows: Seq<Seq<T>>, ncols: nat) -> Seq<T> {
    Seq::new(rows.len() * ncols, |k: int| rows[k / ncols as int][k % ncols as int])
}

/// Rows and columns swapped: entry `(i, j)` of the result is entry `(j, i)` of `rows`.
pub open spec fn transpose<T>(rows: Seq<Seq<T>>, ncols: nat) -> Seq<Seq<T>> {
    Seq::new(ncols, |i: int| Seq::new(rows.len(), |j: int| rows[j][i]))
}

/// Entry-wise sum of two grids of the same shape.
pub open spec fn add_cells<T: Add<Output = T>>(a: Seq<Seq<T>>, b: Seq<Seq<T>>) -> Seq<Seq<T>> {
    Seq::new(a.len(), |i: int| Seq::new(a[i].len(), |j: int| a[i][j].add_spec(b[i][j])))
}

/// `rows` with entry `(i, j)` replaced by `v`.
pub open spec fn put<T>(rows: Seq<Seq<T>>, i: int, j: int, v: T) -> Seq<Seq<T>> {
    rows.update(i, rows[i].update(j, v))
}

/// A grid of `nrows` rows of `ncols` copies of `v`.
pub open spec fn filled<T>(nrows: nat, ncols: nat, v: T) -> Seq<Seq<T>> {
    Seq::new(nrows, |i: int| Seq::new(ncols, |j: int| v))
}

/// `m` without row `r` and column `c` (both counted from 0).
pub open spec fn minor<T>(m: Seq<Seq<T>>, r: int, c: int) -> Seq<Seq<T>> {
    Seq::new(
        (m.len() - 1) as nat,
        |i: int|
            Seq::new(
                (m.len() - 1) as nat,
                |j: int|
                    m[if i >= r {
                        i + 1
                    } else {
                        i
                    }][if j >= c {
                        j + 1
                    } else {
                        j
                    }],
            ),
    )
}

/// Entry `(i, j)` of a `nrows` by `ncols` row-major layout sits at `i * ncols + j`,
/// and nowhere else.
pub proof fn lemma_flat_index(i: int, j: int, nrows: int, ncols: int)
    requires
        0 <= i < nrows,
        0 <= j < ncols,
    ensures
        0 <= i * ncols + j < nrows * ncols,
        (i * ncols + j) / ncols == i,
        (i * ncols + j) % ncols == j,
{
    lemma_mul_inequality(i + 1, nrows, ncols);
    assert((i + 1) * ncols == i * ncols + ncols) by (nonlinear_arith);
    assert(0 <= i * ncols) by (nonlinear_arith)
        requires
            0 <= i,
            0 <= ncols,
    ;
    lemma_fundamental_div_mod_converse(i * ncols + j, ncols, i, j);
}

/// Two in-range positions share a flat index only when they are the same.
pub proof fn lemma_flat_index_injective(i: int, j: int, p: int, q: int, nrows: int, ncols: int)
    requires
        0 <= i < nrows,
        0 <= j < ncols,
        0 <= p < nrows,
        0 <= q < ncols,
        i * ncols + j == p * ncols + q,
    ensures
        i == p,
        j == q,
{
    lemma_flat_index(i, j, nrows, ncols);
    lemma_flat_index(p, q, nrows, ncols);
}

/// A flat index below `nrows * ncols` names an in-range position.
pub proof fn lemma_flat_position(k: int, nrows: int, ncols: int)
    requires
        0 <= k < nrows * ncols,
        0 < ncols,
    ensures
        0 <= k / ncols < nrows,
        0 <= k % ncols < ncols,
        k == (k / ncols) * ncols + k % ncols,
{
    lemma_fundamental_div_mod(k, ncols);
    assert(ncols * (k / ncols) == (k / ncols) * ncols) by (nonlinear_arith);
    assert(0 <= k % ncols < ncols) by (nonlinear_arith)
        requires
            0 < ncols,
    ;
    if k / ncols >= nrows {
        lemma_mul_inequality(nrows, k / ncols, ncols);
    }
    if k / ncols < 0 {
        assert((k / ncols) * ncols <= -ncols) by (nonlinear_arith)
            requires
                k / ncols < 0,
                0 < ncols,
        ;
    }
}

/// Writing one cell of a row-major layout writes the same cell of its rows.
pub proof fn lemma_put_flat<T>(cells: Seq<T>, nrows: nat, ncols: nat, r: int, c: int, v: T)
    requires
        cells.len() == nrows * ncols,
        0 <= r < nrows,
        0 <= c < ncols,
    ensures
        0 <= r * ncols + c < cells.len(),
        unflatten(cells.update(r * ncols + c, v), nrows, ncols) == put(
            unflatten(cells, nrows, ncols),
            r,
            c,
            v,
        ),
{
    lemma_flat_index(r, c, nrows as int, ncols as int);
    let k = r * ncols + c;
    let after = unflatten(cells.update(k, v), nrows, ncols);
    let target = put(unflatten(cells, nrows, ncols), r, c, v);
    assert forall|i: int| 0 <= i < nrows implies #[trigger] after[i] == target[i] by {
        assert forall|j: int| 0 <= j < ncols implies after[i][j] == target[i][j] by {
            lemma_flat_index(i, j, nrows as int, ncols as int);
            if i * ncols + j == k {
                lemma_flat_index_injective(i, j, r, c, nrows as int, ncols as int);
            }
        }
        assert(after[i] =~= target[i]);
    }
    assert(after =~= target);
}

/// Transposing twice gives back the grid one started from.
pub proof fn lemma_transpose_involution<T>(rows: Seq<Seq<T>>, ncols: nat)
    requires
        is_grid(rows, ncols),
    ensures
        transpose(transpose(rows, ncols), rows.len()) == rows,
{
    let tt = transpose(transpose(rows, ncols), rows.len());
    assert forall|i: int| 0 <= i < rows.len() implies #[trigger] tt[i] == rows[i] by {
        assert(tt[i] =~= rows[i]);
    }
    assert(tt =~= rows);
}

/// Laying rows out and reading them back gives the same rows: a matrix
/// rebuilt by `from_parts` from its own size and `elements` equals it.
pub proof fn lemma_unflatten_flatten<T>(rows: Seq<Seq<T>>, ncols: nat)
    requires
        is_grid(rows, ncols),
    ensures
        unflatten(flatten(rows, ncols), rows.len(), ncols) == rows,
{
    let u = unflatten(flatten(rows, ncols), rows.len(), ncols);
    assert forall|i: int| 0 <= i < rows.len() implies u[i] == rows[i] by {
        assert forall|j: int| 0 <= j < ncols implies u[i][j] == rows[i][j] by {
            lemma_flat_index(i, j, rows.len() as int, ncols as int);
        }
        assert(u[i] =~= rows[i]);
    }
    assert(u =~= rows);
}

/// Reading a layout as rows and laying them out again gives the same layout.
pub proof fn lemma_flatten_unflatten<T>(s: Seq<T>, nrows: nat, ncols: nat)
    requires
        s.len() == nrows * ncols,
    ensures
        flatten(unflatten(s, nrows, ncols), ncols) == s,
{
    let f = flatten(unflatten(s, nrows, ncols), ncols);
    assert forall|k: int| 0 <= k < s.len() implies f[k] == s[k] by {
        lemma_flat_position(k, nrows as int, ncols as int);
    }
    assert(f =~= s);
}

/// A fresh vector with the same entries as `v`.
pub(crate) fn copy_all<T: Copy>(v: &Vec<T>) -> (r: Vec<T>)
    ensures
        r@ == v@,
{
    let mut r: Vec<T> = Vec::new();
    for k in 0..v.len()
        invariant
            r@ == v@.take(k as int),
    {
        r.push(v[k]);
        assert(r@ =~= v@.take(k + 1));
    }
    assert(r@ =~= v@);
    r
}

} // verus!
