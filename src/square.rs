//! Square matrices stored row-major, with 1-based indexing.

use crate::arith::{field_exact, field_total, one, ring_exact, ring_total, zero};
use crate::grid::{
    add_cells, copy_all, filled, flatten, is_grid, lemma_flat_index, lemma_flatten_unflatten, lemma_put_flat,
    lemma_unflatten_flatten, minor, put, transpose, unflatten,
};
use core::ops::{Add, Div, Mul, Neg, Sub};
use vstd::prelude::*;
use vstd::std_specs::cmp::PartialEqSpec;
use vstd::std_specs::convert::FromSpec;
use vstd::std_specs::ops::{AddSpec, DivSpec, MulSpec, NegSpec, SubSpec};

verus! {

/// Why a matrix operation could not be carried out.
#[derive(Debug, Clone, Copy, PartialEq, Eq)]
pub enum MatrixError {
    /// A row or column index lies outside the matrix.
    OutOfRange,
    /// The operands of an entry-wise operation differ in shape.
    DimensionMismatch,
    /// The determinant is zero, so there is no inverse.
    NotInvertible,
    /// A backing sequence does not hold exactly one entry per cell.
    BadLength,
}

/// A `size` by `size` matrix whose entries are kept row-major in one vector.
#[derive(Debug, Clone, PartialEq)]
pub struct SquareMatrix<T> {
    size: usize,
    matrix: Vec<T>,
}

/// Whether `(row, col)`, counted from 1, names a cell of an `n` by `n` matrix.
pub open spec fn in_range(n: nat, row: int, col: int) -> bool {
    1 <= row <= n && 1 <= col <= n
}

/// When `a` and `b` have the same size, each pair of entries at the same
/// place may be added.
pub open spec fn addable<T: Add<Output = T>>(a: Seq<Seq<T>>, b: Seq<Seq<T>>) -> bool {
    a.len() == b.len() ==> forall|i: int, j: int|
        0 <= i < a.len() && 0 <= j < a.len() ==> (#[trigger] a[i][j]).add_req(b[i][j])
}

/// Determinant by cofactor expansion along the first row, down to the 2 by 2
/// case. A 1 by 1 matrix has its one entry as determinant, and the empty
/// matrix has 1 (the empty product).
pub open spec fn det_spec<T>(m: Seq<Seq<T>>) -> T where
    T: Add<Output = T> + Sub<Output = T> + Mul<Output = T> + Neg<Output = T> + From<i8>,
    decreases m.len(), 2nat, 0nat,
{
    if m.len() == 0 {
        one::<T>()
    } else if m.len() == 1 {
        m[0][0]
    } else if m.len() == 2 {
        zero::<T>().add_spec(m[0][0].mul_spec(m[1][1]).sub_spec(m[0][1].mul_spec(m[1][0])))
    } else {
        det_terms(m, m.len())
    }
}

/// The first `k` terms of the expansion along the first row, summed from the left.
pub open spec fn det_terms<T>(m: Seq<Seq<T>>, k: nat) -> T where
    T: Add<Output = T> + Sub<Output = T> + Mul<Output = T> + Neg<Output = T> + From<i8>,
    decreases m.len(), 1nat, k,
{
    if k == 0 {
        zero::<T>()
    } else {
        det_terms(m, (k - 1) as nat).add_spec(
            m[0][k - 1].mul_spec(cofactor_spec(m, 0, k - 1)),
        )
    }
}

/// The determinant of the minor at `(r, c)` (counted from 0), negated when
/// `r + c` is odd.
pub open spec fn cofactor_spec<T>(m: Seq<Seq<T>>, r: int, c: int) -> T where
    T: Add<Output = T> + Sub<Output = T> + Mul<Output = T> + Neg<Output = T> + From<i8>,
    decreases m.len(), 0nat, 0nat,
{
    if m.len() == 0 {
        zero::<T>()
    } else if (r + c) % 2 == 0 {
        det_spec(minor(m, r, c))
    } else {
        det_spec(minor(m, r, c)).neg_spec()
    }
}

/// Every operation of the expansion `det_spec(m)` meets its precondition.
pub open spec fn det_ok<T>(m: Seq<Seq<T>>) -> bool where
    T: Add<Output = T> + Sub<Output = T> + Mul<Output = T> + Neg<Output = T> + From<i8>,
    decreases m.len(), 2nat, 0nat,
{
    if m.len() < 2 {
        true
    } else if m.len() == 2 {
        let p = m[0][0].mul_spec(m[1][1]);
        let q = m[0][1].mul_spec(m[1][0]);
        &&& m[0][0].mul_req(m[1][1])
        &&& m[0][1].mul_req(m[1][0])
        &&& p.sub_req(q)
        &&& zero::<T>().add_req(p.sub_spec(q))
    } else {
        terms_ok(m, m.len())
    }
}

/// Every operation of `det_terms(m, k)` meets its precondition.
pub open spec fn terms_ok<T>(m: Seq<Seq<T>>, k: nat) -> bool where
    T: Add<Output = T> + Sub<Output = T> + Mul<Output = T> + Neg<Output = T> + From<i8>,
    decreases m.len(), 1nat, k,
{
    if k == 0 {
        true
    } else {
        let c = cofactor_spec(m, 0, k - 1);
        &&& terms_ok(m, (k - 1) as nat)
        &&& cofactor_ok(m, 0, k - 1)
        &&& m[0][k - 1].mul_req(c)
        &&& det_terms(m, (k - 1) as nat).add_req(m[0][k - 1].mul_spec(c))
    }
}

/// Every operation of `cofactor_spec(m, r, c)` meets its precondition.
pub open spec fn cofactor_ok<T>(m: Seq<Seq<T>>, r: int, c: int) -> bool where
    T: Add<Output = T> + Sub<Output = T> + Mul<Output = T> + Neg<Output = T> + From<i8>,
    decreases m.len(), 0nat, 0nat,
{
    if m.len() == 0 {
        true
    } else {
        &&& det_ok(minor(m, r, c))
        &&& (r + c) % 2 != 0 ==> det_spec(minor(m, r, c)).neg_req()
    }
}

/// The determinant of `m` can be computed: the operations of `T` are total,
/// or they compute their specification functions and each step of the
/// expansion meets its precondition.
pub open spec fn det_defined<T>(m: Seq<Seq<T>>) -> bool where
    T: Add<Output = T> + Sub<Output = T> + Mul<Output = T> + Neg<Output = T> + From<i8>,
 {
    ring_total::<T>() || (ring_exact::<T>() && det_ok(m))
}

/// The cofactor of `m` at `(r, c)` can be computed, in the sense of `det_defined`.
pub open spec fn cofactor_defined<T>(m: Seq<Seq<T>>, r: int, c: int) -> bool where
    T: Add<Output = T> + Sub<Output = T> + Mul<Output = T> + Neg<Output = T> + From<i8>,
 {
    ring_total::<T>() || (ring_exact::<T>() && cofactor_ok(m, r, c))
}

/// The reciprocal of the determinant of `m`.
pub open spec fn recip_det<T>(m: Seq<Seq<T>>) -> T where
    T: Add<Output = T> + Sub<Output = T> + Mul<Output = T> + Div<Output = T> + Neg<Output = T>
        + From<i8>,
 {
    one::<T>().div_spec(det_spec(m))
}

/// The adjugate of `m` scaled by the reciprocal of its determinant.
pub open spec fn inverse_spec<T>(m: Seq<Seq<T>>) -> Seq<Seq<T>> where
    T: Add<Output = T> + Sub<Output = T> + Mul<Output = T> + Div<Output = T> + Neg<Output = T>
        + From<i8>,
 {
    let t = transpose(m, m.len());
    Seq::new(
        m.len(),
        |i: int| Seq::new(m.len(), |j: int| recip_det(m).mul_spec(cofactor_spec(t, i, j))),
    )
}

/// Every operation of `inverse_spec(m)` that a nonzero determinant leads to
/// meets its precondition.
pub open spec fn inverse_ok<T>(m: Seq<Seq<T>>) -> bool where
    T: Add<Output = T> + Sub<Output = T> + Mul<Output = T> + Div<Output = T> + Neg<Output = T>
        + PartialEq + From<i8>,
 {
    let t = transpose(m, m.len());
    &&& det_ok(m)
    &&& !det_spec(m).eq_spec(&zero::<T>()) ==> {
        &&& one::<T>().div_req(det_spec(m))
        &&& forall|i: int, j: int|
            0 <= i < m.len() && 0 <= j < m.len() ==> #[trigger] cofactor_ok(t, i, j)
                && recip_det(m).mul_req(cofactor_spec(t, i, j))
    }
}

/// The inverse of `m` can be computed, in the sense of `det_defined`.
pub open spec fn inverse_defined<T>(m: Seq<Seq<T>>) -> bool where
    T: Add<Output = T> + Sub<Output = T> + Mul<Output = T> + Div<Output = T> + Neg<Output = T>
        + PartialEq + From<i8>,
 {
    field_total::<T>() || (field_exact::<T>() && inverse_ok(m))
}

/// A prefix of a computable expansion is computable.
proof fn lemma_terms_ok_prefix<T>(m: Seq<Seq<T>>, j: nat, k: nat)
    where
        T: Add<Output = T> + Sub<Output = T> + Mul<Output = T> + Neg<Output = T> + From<i8>,
    requires
        j <= k,
        terms_ok(m, k),
    ensures
        terms_ok(m, j),
    decreases k - j,
{
    if j < k {
        lemma_terms_ok_prefix(m, j, (k - 1) as nat);
    }
}

impl<T> View for SquareMatrix<T> {
    type V = Seq<Seq<T>>;

    /// The rows of the matrix, each a sequence of `size` entries.
    closed spec fn view(&self) -> Seq<Seq<T>> {
        unflatten(self.matrix@, self.size as nat, self.size as nat)
    }
}

impl<T> SquareMatrix<T> {
    /// The backing sequence holds exactly one entry per cell, and its
    /// length is a `usize`.
    pub closed spec fn wf(&self) -> bool {
        &&& self.matrix@.len() == self.size * self.size
        &&& self.size * self.size <= usize::MAX
    }
}

impl<T: Copy> SquareMatrix<T> {

    /// Number of rows, which is also the number of columns.
    pub fn size(&self) -> (r: usize)
        requires
            self.wf(),
        ensures
            r == self@.len(),
            is_grid(self@, r as nat),
    {
        self.size
    }

    /// The backing sequence: the entries row after row.
    pub fn elements(&self) -> (r: Vec<T>)
        requires
            self.wf(),
        ensures
            r@ == flatten(self@, self@.len()),
            r@.len() == self@.len() * self@.len(),
    {
        proof {
            lemma_flatten_unflatten(self.matrix@, self.size as nat, self.size as nat);
        }
        copy_all(&self.matrix)
    }

    /// Rebuilds a matrix from its size and backing sequence, as a record of
    /// the exchange format holds them.
    pub fn from_parts(size: usize, matrix: Vec<T>) -> (r: Result<SquareMatrix<T>, MatrixError>)
        ensures
            r is Ok <==> matrix@.len() == size * size,
            r is Ok ==> r->Ok_0.wf(),
            r is Ok ==> r->Ok_0@ == unflatten(matrix@, size as nat, size as nat),
            r is Err ==> r->Err_0 == MatrixError::BadLength,
    {
        if size != 0 && matrix.len() / size == size && matrix.len() % size == 0 {
            proof {
                vstd::arithmetic::div_mod::lemma_fundamental_div_mod(matrix.len() as int, size as int);
            }
            Ok(SquareMatrix { size, matrix })
        } else if size == 0 && matrix.len() == 0 {
            Ok(SquareMatrix { size, matrix })
        } else {
            proof {
                if size != 0 && matrix@.len() == size * size {
                    lemma_flat_index(size - 1, 0, size as int, size as int);
                    vstd::arithmetic::div_mod::lemma_fundamental_div_mod_converse(
                        matrix@.len() as int,
                        size as int,
                        size as int,
                        0,
                    );
                }
            }
            Err(MatrixError::BadLength)
        }
    }

    /// Entry `(row, col)`, counted from 1.
    pub fn get(&self, row: usize, col: usize) -> (r: Result<T, MatrixError>)
        requires
            self.wf(),
        ensures
            r is Ok <==> in_range(self@.len(), row as int, col as int),
            r is Ok ==> r->Ok_0 == self@[row - 1][col - 1],
            r is Err ==> r->Err_0 == MatrixError::OutOfRange,
    {
        if 1 <= row && row <= self.size && 1 <= col && col <= self.size {
            Ok(self.at(row - 1, col - 1))
        } else {
            Err(MatrixError::OutOfRange)
        }
    }

    /// Entry `(i, j)`, counted from 0.
    fn at(&self, i: usize, j: usize) -> (r: T)
        requires
            self.wf(),
            i < self@.len(),
            j < self@.len(),
        ensures
            r == self@[i as int][j as int],
    {
        proof {
            lemma_flat_index(i as int, j as int, self.size as int, self.size as int);
        }
        self.matrix[i * self.size + j]
    }

    /// Replaces entry `(row, col)`, counted from 1, by `val`.
    pub fn set(&mut self, row: usize, col: usize, val: T) -> (r: Result<(), MatrixError>)
        requires
            old(self).wf(),
        ensures
            final(self).wf(),
            r is Ok <==> in_range(old(self)@.len(), row as int, col as int),
            r is Ok ==> final(self)@ == put(old(self)@, row - 1, col - 1, val),
            r is Err ==> r->Err_0 == MatrixError::OutOfRange && final(self)@ == old(self)@,
    {
        if 1 <= row && row <= self.size && 1 <= col && col <= self.size {
            let n = self.size;
            let ghost old_cells = self.matrix@;
            proof {
                lemma_flat_index(row - 1, col - 1, n as int, n as int);
            }
            let k = (row - 1) * n + (col - 1);
            self.matrix.set(k, val);
            proof {
                lemma_put_flat(old_cells, n as nat, n as nat, row - 1, col - 1, val);
            }
            Ok(())
        } else {
            Err(MatrixError::OutOfRange)
        }
    }
}


impl<T: Copy> SquareMatrix<T> {
    /// A new matrix with rows and columns swapped.
    pub fn transpose(&self) -> (r: SquareMatrix<T>)
        requires
            self.wf(),
        ensures
            r.wf(),
            r@ == transpose(self@, self@.len()),
    {
        let n = self.size;
        let len = self.matrix.len();
        let ghost tgt = transpose(self@, n as nat);
        let mut v: Vec<T> = Vec::new();
        assert(v@ =~= flatten(tgt, n as nat).take(0));
        assert(0 * n == 0);
        for x in 0..n
            invariant
                n == self.size,
                self.wf(),
                len == n * n,
                tgt == transpose(self@, n as nat),
                v@ == flatten(tgt, n as nat).take(x * n),
        {
            for y in 0..n
                invariant
                    n == self.size,
                    self.wf(),
                    len == n * n,
                    x < n,
                    tgt == transpose(self@, n as nat),
                    v@ == flatten(tgt, n as nat).take(x * n + y),
            {
                proof {
                    lemma_flat_index(x as int, y as int, n as int, n as int);
                }
                v.push(self.at(y, x));
                assert(v@ =~= flatten(tgt, n as nat).take(x * n + y + 1));
            }
            assert((x + 1) * n == x * n + n) by (nonlinear_arith);
        }
        proof {
            assert(is_grid(tgt, n as nat));
            assert(v@ =~= flatten(tgt, n as nat));
            lemma_unflatten_flatten(tgt, n as nat);
        }
        SquareMatrix { size: n, matrix: v }
    }

    /// The matrix without row `row` and column `col` (both counted from 1).
    pub fn minor(&self, row: usize, col: usize) -> (r: SquareMatrix<T>)
        requires
            self.wf(),
            in_range(self@.len(), row as int, col as int),
        ensures
            r.wf(),
            r@ == minor(self@, row - 1, col - 1),
    {
        let n = self.size - 1;
        let len = self.matrix.len();
        let ghost tgt = minor(self@, row - 1, col - 1);
        proof {
            assert(n * n <= self.size * self.size) by (nonlinear_arith)
                requires
                    n < self.size,
            ;
        }
        let mut v: Vec<T> = Vec::new();
        assert(v@ =~= flatten(tgt, n as nat).take(0));
        assert(0 * n == 0);
        for x in 0..n
            invariant
                n + 1 == self.size,
                1 <= row <= self.size,
                1 <= col <= self.size,
                self.wf(),
                len == self.size * self.size,
                tgt == minor(self@, row - 1, col - 1),
                v@ == flatten(tgt, n as nat).take(x * n),
        {
            for y in 0..n
                invariant
                    n + 1 == self.size,
                    1 <= row <= self.size,
                    1 <= col <= self.size,
                    self.wf(),
                    len == self.size * self.size,
                    x < n,
                    tgt == minor(self@, row - 1, col - 1),
                    v@ == flatten(tgt, n as nat).take(x * n + y),
            {
                proof {
                    lemma_flat_index(x as int, y as int, n as int, n as int);
                }
                let i = if x + 1 >= row {
                    x + 1
                } else {
                    x
                };
                let j = if y + 1 >= col {
                    y + 1
                } else {
                    y
                };
                v.push(self.at(i, j));
                assert(v@ =~= flatten(tgt, n as nat).take(x * n + y + 1));
            }
            assert((x + 1) * n == x * n + n) by (nonlinear_arith);
        }
        proof {
            assert(is_grid(tgt, n as nat));
            assert(v@ =~= flatten(tgt, n as nat));
            lemma_unflatten_flatten(tgt, n as nat);
        }
        SquareMatrix { size: n, matrix: v }
    }
}


impl<T: Copy + From<i8>> SquareMatrix<T> {
    /// A `s` by `s` matrix with every entry zero.
    pub fn new(s: usize) -> (r: SquareMatrix<T>)
        requires
            s * s <= usize::MAX,
        ensures
            r.wf(),
            r@.len() == s,
            is_grid(r@, s as nat),
            T::obeys_from_spec() ==> r@ == filled(s as nat, s as nat, zero::<T>()),
    {
        let z = T::from(0i8);
        let mut v: Vec<T> = Vec::new();
        let total = s * s;
        for k in 0..total
            invariant
                total == s * s,
                v@ == Seq::new(k as nat, |i: int| z),
        {
            v.push(z);
            assert(v@ =~= Seq::new((k + 1) as nat, |i: int| z));
        }
        let r = SquareMatrix { size: s, matrix: v };
        proof {
            if T::obeys_from_spec() {
                assert(r@ =~= filled(s as nat, s as nat, zero::<T>())) by {
                    assert forall|i: int, j: int| 0 <= i < s && 0 <= j < s implies r@[i][j] == z by {
                        lemma_flat_index(i, j, s as int, s as int);
                    }
                    assert forall|i: int| 0 <= i < s implies r@[i] =~= filled(
                        s as nat,
                        s as nat,
                        zero::<T>(),
                    )[i] by {}
                }
            }
        }
        r
    }
}

impl<T: Copy + Add<Output = T>> SquareMatrix<T> {
    /// Entry-wise sum with a matrix of the same size.
    pub fn sum(&self, other: SquareMatrix<T>) -> (r: Result<SquareMatrix<T>, MatrixError>)
        requires
            self.wf(),
            other.wf(),
            addable(self@, other@),
        ensures
            r is Err <==> self@.len() != other@.len(),
            r is Err ==> r->Err_0 == MatrixError::DimensionMismatch,
            r is Ok ==> r->Ok_0.wf() && r->Ok_0@.len() == self@.len() && is_grid(
                r->Ok_0@,
                self@.len(),
            ),
            r is Ok && T::obeys_add_spec() ==> r->Ok_0@ == add_cells(self@, other@),
    {
        if self.size != other.size {
            return Err(MatrixError::DimensionMismatch);
        }
        let n = self.size;
        let len = self.matrix.len();
        let ghost tgt = add_cells(self@, other@);
        let mut v: Vec<T> = Vec::new();
        assert(v@ =~= flatten(tgt, n as nat).take(0));
        assert(0 * n == 0);
        for x in 0..n
            invariant
                n == self.size,
                n == other.size,
                self.wf(),
                other.wf(),
                addable(self@, other@),
                len == n * n,
                tgt == add_cells(self@, other@),
                v@.len() == x * n,
                T::obeys_add_spec() ==> v@ == flatten(tgt, n as nat).take(x * n),
        {
            for y in 0..n
                invariant
                    n == self.size,
                    n == other.size,
                    self.wf(),
                    other.wf(),
                    addable(self@, other@),
                    len == n * n,
                    x < n,
                    tgt == add_cells(self@, other@),
                    v@.len() == x * n + y,
                    T::obeys_add_spec() ==> v@ == flatten(tgt, n as nat).take(x * n + y),
            {
                proof {
                    lemma_flat_index(x as int, y as int, n as int, n as int);
                }
                let e = self.at(x, y) + other.at(x, y);
                v.push(e);
                assert(T::obeys_add_spec() ==> v@ =~= flatten(tgt, n as nat).take(x * n + y + 1));
            }
            assert((x + 1) * n == x * n + n) by (nonlinear_arith);
        }
        let r = SquareMatrix { size: n, matrix: v };
        proof {
            if T::obeys_add_spec() {
                assert(is_grid(tgt, n as nat));
                assert(v@ =~= flatten(tgt, n as nat));
                lemma_unflatten_flatten(tgt, n as nat);
            }
        }
        Ok(r)
    }
}


impl<T> SquareMatrix<T> where
    T: Copy + From<i8> + Add<Output = T> + Sub<Output = T> + Mul<Output = T> + Neg<Output = T>,
 {
    /// The cofactor at `(row, col)` (counted from 1): the determinant of the
    /// minor there, negated when `row + col` is odd.
    pub fn compl(&self, row: usize, col: usize) -> (r: T)
        requires
            self.wf(),
            in_range(self@.len(), row as int, col as int),
            cofactor_defined(self@, row - 1, col - 1),
        ensures
            ring_exact::<T>() ==> r == cofactor_spec(self@, row - 1, col - 1),
        decreases self@.len(), 0nat,
    {
        let mat = self.minor(row, col);
        let d = mat.deter();
        proof {
            assert(row + col <= 2 * self.size);
            assert(2 * self.size <= self.size * self.size || self.size < 2) by (nonlinear_arith);
            assert((row - 1 + col - 1) % 2 == (row + col) % 2 as int);
        }
        if (row + col) % 2 == 0 {
            d
        } else {
            d.neg()
        }
    }

    /// The determinant, by cofactor expansion along the first row down to the
    /// 2 by 2 case; a 1 by 1 matrix gives its entry and the empty matrix 1.
    /// The expansion makes `size!` products: it suits small matrices only.
    pub fn deter(&self) -> (r: T)
        requires
            self.wf(),
            det_defined(self@),
        ensures
            ring_exact::<T>() ==> r == det_spec(self@),
        decreases self@.len(), 1nat,
    {
        if self.size == 0 {
            return T::from(1i8);
        }
        if self.size == 1 {
            return self.at(0, 0);
        }
        let z = T::from(0i8);
        if self.size == 2 {
            let p = self.at(0, 0) * self.at(1, 1);
            let q = self.at(0, 1) * self.at(1, 0);
            return z + (p - q);
        }
        let n = self.size;
        let mut d = z;
        for x in 0..n
            invariant
                n == self.size,
                n > 2,
                self.wf(),
                det_defined(self@),
                ring_exact::<T>() ==> d == det_terms(self@, x as nat),
        {
            proof {
                if !ring_total::<T>() {
                    lemma_terms_ok_prefix(self@, (x + 1) as nat, n as nat);
                }
            }
            let e = self.at(0, x);
            let c = self.compl(1, x + 1);
            d = d + e * c;
        }
        d
    }
}

impl<T> SquareMatrix<T> where
    T: Copy + From<i8> + PartialEq + Add<Output = T> + Sub<Output = T> + Mul<Output = T> + Div<
        Output = T,
    > + Neg<Output = T>,
 {
    /// The inverse: the transposed matrix of cofactors times the reciprocal
    /// of the determinant. A zero determinant has no inverse.
    pub fn invert(self) -> (r: Result<SquareMatrix<T>, MatrixError>)
        requires
            self.wf(),
            inverse_defined(self@),
        ensures
            r is Err ==> r->Err_0 == MatrixError::NotInvertible,
            r is Ok ==> r->Ok_0.wf() && r->Ok_0@.len() == self@.len() && is_grid(
                r->Ok_0@,
                self@.len(),
            ),
            field_exact::<T>() ==> (r is Err <==> det_spec(self@).eq_spec(&zero::<T>())),
            field_exact::<T>() && r is Ok ==> r->Ok_0@ == inverse_spec(self@),
    {
        let det = self.deter();
        let z = T::from(0i8);
        if det == z {
            return Err(MatrixError::NotInvertible);
        }
        let d = T::from(1i8) / det;
        let t = self.transpose();
        let n = t.size;
        assert(t@.len() == t.size);
        assert(self@.len() == self.size);
        let len = t.matrix.len();
        let ghost tgt = inverse_spec(self@);
        let mut v: Vec<T> = Vec::new();
        assert(v@ =~= flatten(tgt, n as nat).take(0));
        assert(0 * n == 0);
        for x in 0..n
            invariant
                n == t.size,
                n == self.size,
                t.wf(),
                len == n * n,
                t@ == transpose(self@, self@.len()),
                inverse_defined(self@),
                field_exact::<T>() ==> !det_spec(self@).eq_spec(&zero::<T>()),
                field_exact::<T>() ==> d == recip_det(self@),
                tgt == inverse_spec(self@),
                v@.len() == x * n,
                field_exact::<T>() ==> v@ == flatten(tgt, n as nat).take(x * n),
        {
            for y in 0..n
                invariant
                    n == t.size,
                    n == self.size,
                    t.wf(),
                    len == n * n,
                    x < n,
                    t@ == transpose(self@, self@.len()),
                    inverse_defined(self@),
                    field_exact::<T>() ==> !det_spec(self@).eq_spec(&zero::<T>()),
                    field_exact::<T>() ==> d == recip_det(self@),
                    tgt == inverse_spec(self@),
                    v@.len() == x * n + y,
                    field_exact::<T>() ==> v@ == flatten(tgt, n as nat).take(x * n + y),
            {
                proof {
                    lemma_flat_index(x as int, y as int, n as int, n as int);
                    if !field_total::<T>() {
                        assert(cofactor_ok(t@, x as int, y as int));
                    }
                }
                let c = t.compl(x + 1, y + 1);
                let e = d * c;
                v.push(e);
                assert(field_exact::<T>() ==> v@ =~= flatten(tgt, n as nat).take(x * n + y + 1));
            }
            assert((x + 1) * n == x * n + n) by (nonlinear_arith);
        }
        let r = SquareMatrix { size: n, matrix: v };
        proof {
            if field_exact::<T>() {
                assert(is_grid(tgt, n as nat));
                assert(v@ =~= flatten(tgt, n as nat));
                lemma_unflatten_flatten(tgt, n as nat);
            }
        }
        Ok(r)
    }
}

} // verus!
