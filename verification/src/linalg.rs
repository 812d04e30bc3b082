//! What the kernels compute, stated on sequences: inner product,
//! matrix-vector product, matrix product and transpose of square row-major
//! matrices.

use vstd::prelude::*;
use crate::index::col_of;
use crate::index::lemma_cell_offset;
use crate::index::lemma_offset_cell;
use crate::index::lemma_offset_in_bounds;
use crate::index::lemma_row_in_bounds;
use crate::index::offset;
use crate::index::row_of;
use crate::scalar::Scalar;

verus! {

/// The sum of the first `k` products `u[i] * v[i]`, taken from the left.
pub open spec fn dot_prefix<E: Scalar>(u: Seq<E>, v: Seq<E>, k: nat) -> E
    decreases k,
{
    if k == 0 {
        E::zero_value()
    } else {
        dot_prefix(u, v, (k - 1) as nat).sum(u[k - 1].product(v[k - 1]))
    }
}

/// Inner product of `u` with the first `u.len()` elements of `v`.
pub open spec fn dot<E: Scalar>(u: Seq<E>, v: Seq<E>) -> E {
    dot_prefix(u, v, u.len())
}

/// Row `row` of the `n` by `n` matrix `m`.
pub open spec fn matrix_row<E>(m: Seq<E>, n: int, row: int) -> Seq<E> {
    Seq::new(n as nat, |j: int| m[offset(row, j, n)])
}

/// Column `col` of the `n` by `n` matrix `m`.
pub open spec fn matrix_col<E>(m: Seq<E>, n: int, col: int) -> Seq<E> {
    Seq::new(n as nat, |i: int| m[offset(i, col, n)])
}

/// The product of the `n` by `n` matrix `a` with the vector `x`.
pub open spec fn mat_vec<E: Scalar>(a: Seq<E>, x: Seq<E>, n: int) -> Seq<E> {
    Seq::new(n as nat, |row: int| dot(matrix_row(a, n, row), x))
}

/// The product of the `n` by `n` matrices `a` and `b`.
pub open spec fn mat_mul<E: Scalar>(a: Seq<E>, b: Seq<E>, n: int) -> Seq<E> {
    Seq::new(
        (n * n) as nat,
        |i: int| dot(matrix_row(a, n, row_of(i, n)), matrix_col(b, n, col_of(i, n))),
    )
}

/// The transpose of the `n` by `n` matrix `m`.
pub open spec fn transposed<E>(m: Seq<E>, n: int) -> Seq<E> {
    Seq::new((n * n) as nat, |i: int| m[offset(col_of(i, n), row_of(i, n), n)])
}

/// Cell `(row, col)` of the product is the inner product of row `row` of the
/// left matrix with column `col` of the right one.
pub proof fn lemma_mat_mul_cell<E: Scalar>(a: Seq<E>, b: Seq<E>, n: int, row: int, col: int)
    requires
        0 <= row < n,
        0 <= col < n,
    ensures
        0 <= offset(row, col, n) < mat_mul(a, b, n).len(),
        mat_mul(a, b, n)[offset(row, col, n)] == dot(matrix_row(a, n, row), matrix_col(b, n, col)),
{
    lemma_offset_in_bounds(row, col, n, n);
    lemma_offset_cell(row, col, n);
}

/// Cell `(col, row)` of the transpose is cell `(row, col)` of the matrix.
pub proof fn lemma_transposed_cell<E>(m: Seq<E>, n: int, row: int, col: int)
    requires
        0 <= row < n,
        0 <= col < n,
    ensures
        0 <= offset(col, row, n) < transposed(m, n).len(),
        transposed(m, n)[offset(col, row, n)] == m[offset(row, col, n)],
{
    lemma_offset_in_bounds(col, row, n, n);
    lemma_offset_cell(col, row, n);
}

/// Transposing twice gives the matrix back.
pub proof fn lemma_transposed_involutive<E>(m: Seq<E>, n: int)
    requires
        0 <= n,
        m.len() == n * n,
    ensures
        transposed(transposed(m, n), n) == m,
{
    let t = transposed(m, n);
    let tt = transposed(t, n);
    assert(tt.len() == m.len());
    assert forall|i: int| 0 <= i < m.len() implies tt[i] == m[i] by {
        assert(0 < n) by (nonlinear_arith)
            requires
                0 <= i < n * n,
                0 <= n,
        ;
        lemma_cell_offset(i, n);
        lemma_row_in_bounds(i, n, n);
        let row = row_of(i, n);
        let col = col_of(i, n);
        lemma_transposed_cell(m, n, row, col);
    }
    assert(tt =~= m);
}

} // verus!
