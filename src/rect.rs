//! Rectangular matrices stored row-major, with 1-based indexing.

use crate::arith::zero;
use crate::grid::{
    add_cells, copy_all, filled, flatten, is_grid, lemma_flat_index, lemma_flatten_unflatten, lemma_put_flat,
    lemma_transpose_involution, lemma_unflatten_flatten, put, transpose, unflatten,
};
use crate::square::MatrixError;
use core::ops::Add;
use vstd::prelude::*;
use vstd::std_specs::convert::FromSpec;
use vstd::std_specs::ops::AddSpec;

verus! {

/// A rectangular matrix as contracts see it: its width and its rows.
pub struct MatrixModel<T> {
    pub sizex: nat,
    pub rows: Seq<Seq<T>>,
}

impl<T> MatrixModel<T> {
    /// Number of rows.
    pub open spec fn sizey(self) -> nat {
        self.rows.len()
    }

    /// Every row holds `sizex` entries.
    pub open spec fn is_shaped(self) -> bool {
        is_grid(self.rows, self.sizex)
    }

    /// Whether `(row, col)`, counted from 1, names a cell.
    pub open spec fn in_range(self, row: int, col: int) -> bool {
        1 <= row <= self.sizey() && 1 <= col <= self.sizex
    }

    /// Rows and columns swapped.
    pub open spec fn transposed(self) -> MatrixModel<T> {
        MatrixModel { sizex: self.sizey(), rows: transpose(self.rows, self.sizex) }
    }
}

/// Transposing twice gives back the matrix one started from, width included.
pub proof fn lemma_transposed_twice<T>(m: MatrixModel<T>)
    requires
        m.is_shaped(),
    ensures
        m.transposed().transposed() == m,
{
    lemma_transpose_involution(m.rows, m.sizex);
}

/// A matrix rebuilt from its width, height and `elements`, as `from_parts`
/// does, equals it.
pub proof fn lemma_record_round_trip<T>(m: MatrixModel<T>)
    requires
        m.is_shaped(),
    ensures
        (MatrixModel {
            sizex: m.sizex,
            rows: unflatten(flatten(m.rows, m.sizex), m.sizey(), m.sizex),
        }) == m,
{
    lemma_unflatten_flatten(m.rows, m.sizex);
}

/// When `a` and `b` have the same shape, each pair of entries at the same
/// place may be added.
pub open spec fn addable<T: Add<Output = T>>(a: MatrixModel<T>, b: MatrixModel<T>) -> bool {
    a.sizex == b.sizex && a.sizey() == b.sizey() ==> forall|i: int, j: int|
        0 <= i < a.sizey() && 0 <= j < a.sizex ==> (#[trigger] a.rows[i][j]).add_req(b.rows[i][j])
}

/// A matrix of `sizey` rows and `sizex` columns, entries kept row-major.
#[derive(Debug, Clone, PartialEq)]
pub struct Matrix<T> {
    sizex: usize,
    sizey: usize,
    matrix: Vec<T>,
}

impl<T> View for Matrix<T> {
    type V = MatrixModel<T>;

    closed spec fn view(&self) -> MatrixModel<T> {
        MatrixModel {
            sizex: self.sizex as nat,
            rows: unflatten(self.matrix@, self.sizey as nat, self.sizex as nat),
        }
    }
}

impl<T> Matrix<T> {
    /// The backing sequence holds exactly one entry per cell, and its
    /// length is a `usize`.
    pub closed spec fn wf(&self) -> bool {
        &&& self.matrix@.len() == self.sizex * self.sizey
        &&& self.sizex * self.sizey <= usize::MAX
    }
}

impl<T: Copy> Matrix<T> {
    /// Number of columns.
    pub fn sizex(&self) -> (r: usize)
        ensures
            r == self@.sizex,
    {
        self.sizex
    }

    /// Number of rows.
    pub fn sizey(&self) -> (r: usize)
        ensures
            r == self@.sizey(),
            self@.is_shaped(),
    {
        self.sizey
    }

    /// The backing sequence: the entries row after row.
    pub fn elements(&self) -> (r: Vec<T>)
        requires
            self.wf(),
        ensures
            r@ == flatten(self@.rows, self@.sizex),
    {
        proof {
            lemma_flatten_unflatten(self.matrix@, self.sizey as nat, self.sizex as nat);
        }
        copy_all(&self.matrix)
    }

    /// Rebuilds a matrix from its shape and backing sequence, as a record of
    /// the exchange format holds them.
    pub fn from_parts(sizex: usize, sizey: usize, matrix: Vec<T>) -> (r: Result<
        Matrix<T>,
        MatrixError,
    >)
        ensures
            r is Ok <==> matrix@.len() == sizex * sizey,
            r is Ok ==> r->Ok_0.wf(),
            r is Ok ==> r->Ok_0@ == (MatrixModel {
                sizex: sizex as nat,
                rows: unflatten(matrix@, sizey as nat, sizex as nat),
            }),
            r is Err ==> r->Err_0 == MatrixError::BadLength,
    {
        if sizex == 0 {
            if matrix.len() == 0 {
                return Ok(Matrix { sizex, sizey, matrix });
            }
            return Err(MatrixError::BadLength);
        }
        let len = matrix.len();
        if len % sizex == 0 && len / sizex == sizey {
            proof {
                vstd::arithmetic::div_mod::lemma_fundamental_div_mod(len as int, sizex as int);
                assert(sizex * (len / sizex) == sizex * sizey);
                assert(sizex * sizey == sizey * sizex) by (nonlinear_arith);
            }
            Ok(Matrix { sizex, sizey, matrix })
        } else {
            proof {
                if len == sizex * sizey {
                    assert(len == sizey * sizex + 0) by (nonlinear_arith)
                        requires
                            len == sizex * sizey,
                    ;
                    vstd::arithmetic::div_mod::lemma_fundamental_div_mod_converse(
                        len as int,
                        sizex as int,
                        sizey as int,
                        0,
                    );
                }
            }
            Err(MatrixError::BadLength)
        }
    }

    /// Entry `(i, j)`, counted from 0.
    fn at(&self, i: usize, j: usize) -> (r: T)
        requires
            self.wf(),
            i < self@.sizey(),
            j < self@.sizex,
        ensures
            r == self@.rows[i as int][j as int],
    {
        proof {
            lemma_flat_index(i as int, j as int, self.sizey as int, self.sizex as int);
            assert(self.sizey * self.sizex == self.sizex * self.sizey) by (nonlinear_arith);
        }
        self.matrix[i * self.sizex + j]
    }

    /// Entry `(row, col)`, counted from 1.
    pub fn get(&self, row: usize, col: usize) -> (r: Result<T, MatrixError>)
        requires
            self.wf(),
        ensures
            r is Ok <==> self@.in_range(row as int, col as int),
            r is Ok ==> r->Ok_0 == self@.rows[row - 1][col - 1],
            r is Err ==> r->Err_0 == MatrixError::OutOfRange,
    {
        if 1 <= row && row <= self.sizey && 1 <= col && col <= self.sizex {
            Ok(self.at(row - 1, col - 1))
        } else {
            Err(MatrixError::OutOfRange)
        }
    }

    /// Replaces entry `(row, col)`, counted from 1, by `val`.
    pub fn set(&mut self, row: usize, col: usize, val: T) -> (r: Result<(), MatrixError>)
        requires
            old(self).wf(),
        ensures
            final(self).wf(),
            r is Ok <==> old(self)@.in_range(row as int, col as int),
            r is Ok ==> final(self)@ == (MatrixModel {
                sizex: old(self)@.sizex,
                rows: put(old(self)@.rows, row - 1, col - 1, val),
            }),
            r is Err ==> r->Err_0 == MatrixError::OutOfRange && final(self)@ == old(self)@,
    {
        if 1 <= row && row <= self.sizey && 1 <= col && col <= self.sizex {
            let nx = self.sizex;
            let ny = self.sizey;
            let ghost old_cells = self.matrix@;
            proof {
                lemma_flat_index(row - 1, col - 1, ny as int, nx as int);
                assert(ny * nx == nx * ny) by (nonlinear_arith);
            }
            let k = (row - 1) * nx + (col - 1);
            self.matrix.set(k, val);
            proof {
                lemma_put_flat(old_cells, ny as nat, nx as nat, row - 1, col - 1, val);
            }
            Ok(())
        } else {
            Err(MatrixError::OutOfRange)
        }
    }

    /// A new matrix with rows and columns swapped: `sizey` columns and
    /// `sizex` rows.
    pub fn transpose(&self) -> (r: Matrix<T>)
        requires
            self.wf(),
        ensures
            r.wf(),
            r@ == self@.transposed(),
    {
        let nx = self.sizex;
        let ny = self.sizey;
        let len = self.matrix.len();
        let ghost tgt = transpose(self@.rows, nx as nat);
        let mut v: Vec<T> = Vec::new();
        assert(v@ =~= flatten(tgt, ny as nat).take(0));
        assert(0 * ny == 0);
        for x in 0..nx
            invariant
                nx == self.sizex,
                ny == self.sizey,
                self.wf(),
                len == nx * ny,
                tgt == transpose(self@.rows, nx as nat),
                v@ == flatten(tgt, ny as nat).take(x * ny),
        {
            for y in 0..ny
                invariant
                    nx == self.sizex,
                    ny == self.sizey,
                    self.wf(),
                    len == nx * ny,
                    x < nx,
                    tgt == transpose(self@.rows, nx as nat),
                    v@ == flatten(tgt, ny as nat).take(x * ny + y),
            {
                proof {
                    lemma_flat_index(x as int, y as int, nx as int, ny as int);
                }
                v.push(self.at(y, x));
                assert(v@ =~= flatten(tgt, ny as nat).take(x * ny + y + 1));
            }
            assert((x + 1) * ny == x * ny + ny) by (nonlinear_arith);
        }
        let r = Matrix { sizex: ny, sizey: nx, matrix: v };
        proof {
            assert(is_grid(tgt, ny as nat));
            assert(v@ =~= flatten(tgt, ny as nat));
            lemma_unflatten_flatten(tgt, ny as nat);
            assert(ny * nx == nx * ny) by (nonlinear_arith);
            assert(r@.rows == tgt);
        }
        r
    }
}


impl<T: Copy + From<i8>> Matrix<T> {
    /// A matrix of `sizey` rows and `sizex` columns with every entry zero.
    pub fn new(sizex: usize, sizey: usize) -> (r: Matrix<T>)
        requires
            sizex * sizey <= usize::MAX,
        ensures
            r.wf(),
            r@.sizex == sizex,
            r@.sizey() == sizey,
            r@.is_shaped(),
            T::obeys_from_spec() ==> r@.rows == filled(sizey as nat, sizex as nat, zero::<T>()),
    {
        let z = T::from(0i8);
        let mut v: Vec<T> = Vec::new();
        let total = sizex * sizey;
        for k in 0..total
            invariant
                total == sizex * sizey,
                v@ == Seq::new(k as nat, |i: int| z),
        {
            v.push(z);
            assert(v@ =~= Seq::new((k + 1) as nat, |i: int| z));
        }
        let r = Matrix { sizex, sizey, matrix: v };
        proof {
            assert(sizey * sizex == sizex * sizey) by (nonlinear_arith);
            if T::obeys_from_spec() {
                let f = filled(sizey as nat, sizex as nat, zero::<T>());
                assert forall|i: int| 0 <= i < sizey implies r@.rows[i] =~= f[i] by {
                    assert forall|j: int| 0 <= j < sizex implies r@.rows[i][j] == z by {
                        lemma_flat_index(i, j, sizey as int, sizex as int);
                    }
                }
                assert(r@.rows =~= f);
            }
        }
        r
    }
}

impl<T: Copy + Add<Output = T>> Matrix<T> {
    /// Entry-wise sum with a matrix of the same shape.
    pub fn sum(&self, other: Matrix<T>) -> (r: Result<Matrix<T>, MatrixError>)
        requires
            self.wf(),
            other.wf(),
            addable(self@, other@),
        ensures
            r is Err <==> (self@.sizex != other@.sizex || self@.sizey() != other@.sizey()),
            r is Err ==> r->Err_0 == MatrixError::DimensionMismatch,
            r is Ok ==> r->Ok_0.wf() && r->Ok_0@.sizex == self@.sizex && r->Ok_0@.sizey()
                == self@.sizey() && r->Ok_0@.is_shaped(),
            r is Ok && T::obeys_add_spec() ==> r->Ok_0@.rows == add_cells(
                self@.rows,
                other@.rows,
            ),
    {
        if self.sizex != other.sizex || self.sizey != other.sizey {
            return Err(MatrixError::DimensionMismatch);
        }
        let nx = self.sizex;
        let ny = self.sizey;
        let len = self.matrix.len();
        let ghost tgt = add_cells(self@.rows, other@.rows);
        let mut v: Vec<T> = Vec::new();
        assert(v@ =~= flatten(tgt, nx as nat).take(0));
        assert(0 * nx == 0);
        for x in 0..ny
            invariant
                nx == self.sizex,
                ny == self.sizey,
                nx == other.sizex,
                ny == other.sizey,
                self.wf(),
                other.wf(),
                addable(self@, other@),
                len == nx * ny,
                tgt == add_cells(self@.rows, other@.rows),
                v@.len() == x * nx,
                T::obeys_add_spec() ==> v@ == flatten(tgt, nx as nat).take(x * nx),
        {
            for y in 0..nx
                invariant
                    nx == self.sizex,
                    ny == self.sizey,
                    nx == other.sizex,
                    ny == other.sizey,
                    self.wf(),
                    other.wf(),
                    addable(self@, other@),
                    len == nx * ny,
                    x < ny,
                    tgt == add_cells(self@.rows, other@.rows),
                    v@.len() == x * nx + y,
                    T::obeys_add_spec() ==> v@ == flatten(tgt, nx as nat).take(x * nx + y),
            {
                proof {
                    lemma_flat_index(x as int, y as int, ny as int, nx as int);
                }
                let e = self.at(x, y) + other.at(x, y);
                v.push(e);
                assert(T::obeys_add_spec() ==> v@ =~= flatten(tgt, nx as nat).take(
                    x * nx + y + 1,
                ));
            }
            assert((x + 1) * nx == x * nx + nx) by (nonlinear_arith);
        }
        let r = Matrix { sizex: nx, sizey: ny, matrix: v };
        proof {
            assert(ny * nx == nx * ny) by (nonlinear_arith);
            if T::obeys_add_spec() {
                assert(is_grid(tgt, nx as nat));
                assert(v@ =~= flatten(tgt, nx as nat));
                lemma_unflatten_flatten(tgt, nx as nat);
            }
        }
        Ok(r)
    }
}

} // verus!
