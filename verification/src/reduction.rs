//! Row reduction: the product of a square matrix with a vector, one thread
//! per row of the matrix.

use vstd::prelude::*;
use crate::geometry::Dim;
use crate::geometry::Launch;
use crate::geometry::ThreadId;
use crate::index::at;
use crate::index::lemma_offset_in_bounds;
use crate::linalg::dot;
use crate::linalg::dot_prefix;
use crate::linalg::mat_vec;
use crate::linalg::matrix_row;
use crate::scalar::Scalar;

verus! {

/// The result buffer once the threads at the first `k` x coordinates have
/// run: each of the first `n` of them has written the inner product of its
/// row with the vector, every other element is as before.
pub open spec fn axpy_upto<E: Scalar>(a: Seq<E>, x: Seq<E>, res: Seq<E>, n: int, k: int) -> Seq<E> {
    Seq::new(
        res.len(),
        |i: int|
            if i < n && i < k {
                dot(matrix_row(a, n, i), x)
            } else {
                res[i]
            },
    )
}

/// The result buffer once the thread at x coordinate `g` has run on it.
pub open spec fn axpy_step<E: Scalar>(a: Seq<E>, x: Seq<E>, res: Seq<E>, n: int, g: int) -> Seq<E> {
    if 0 <= g < n {
        res.update(g, dot(matrix_row(a, n, g), x))
    } else {
        res
    }
}

/// The result buffer after the kernel.
pub open spec fn axpy_output<E: Scalar>(launch: Launch, a: Seq<E>, x: Seq<E>, res: Seq<E>, n: int) -> Seq<
    E,
> {
    axpy_upto(a, x, res, n, launch.reach_x())
}

/// The program of one thread: the thread at x coordinate `idx` reduces row
/// `idx` of `a` against `x` and writes the sum to `res[idx]`; a thread past
/// the last row touches no buffer. The coefficient `y` is taken and not
/// applied.
pub fn axpy_thread<E: Scalar>(id: &ThreadId, a: &[E], x: &[E], y: E, res: &mut [E], n: usize)
    requires
        id.wf(),
        n * n <= a.len(),
        n <= x.len(),
        n <= old(res).len(),
    ensures
        final(res)@ == axpy_step(a@, x@, old(res)@, n as int, id.gx()),
{
    proof {
        id.lemma_in_reach();
    }
    let idx: usize = id.x();
    if idx >= n {
        return ;
    }
    let mut acc: E = E::zero();
    let mut i: usize = 0;
    while i < n
        invariant
            idx < n,
            i <= n,
            n * n <= a.len(),
            n <= x.len(),
            acc == dot_prefix(matrix_row(a@, n as int, idx as int), x@, i as nat),
        decreases n - i,
    {
        proof {
            lemma_offset_in_bounds(idx as int, i as int, n as int, n as int);
        }
        let elem: E = a[at(idx, i, n)];
        acc = acc.plus(elem.times(x[i]));
        i = i + 1;
    }
    res[idx] = acc;
}

/// The matrix-vector kernel launched on a grid: every thread of the launch
/// runs, row of threads by row of threads.
pub fn axpy<E: Scalar>(launch: &Launch, a: &[E], x: &[E], y: E, res: &mut [E], n: usize)
    requires
        launch.wf(),
        n * n <= a.len(),
        n <= x.len(),
        n <= old(res).len(),
    ensures
        final(res)@ == axpy_output(*launch, a@, x@, old(res)@, n as int),
{
    let ghost res0 = res@;
    let ghost width = launch.threads_x();
    let mut by: usize = 0;
    assert(res@ =~= axpy_upto(a@, x@, res0, n as int, 0));
    while by < launch.grid.y
        invariant
            launch.wf(),
            n * n <= a.len(),
            n <= x.len(),
            n <= res0.len(),
            width == launch.threads_x(),
            by <= launch.grid.y,
            res@ == axpy_upto(
                a@,
                x@,
                res0,
                n as int,
                if by > 0 && launch.block.y > 0 {
                    width
                } else {
                    0
                },
            ),
        decreases launch.grid.y - by,
    {
        let mut ty: usize = 0;
        while ty < launch.block.y
            invariant
                launch.wf(),
                n * n <= a.len(),
                n <= x.len(),
                n <= res0.len(),
                width == launch.threads_x(),
                by < launch.grid.y,
                ty <= launch.block.y,
                res@ == axpy_upto(
                    a@,
                    x@,
                    res0,
                    n as int,
                    if (by > 0 && launch.block.y > 0) || ty > 0 {
                        width
                    } else {
                        0
                    },
                ),
            decreases launch.block.y - ty,
        {
            let mut bx: usize = 0;
            proof {
                assert(0 * launch.block.x == 0);
            }
            while bx < launch.grid.x
                invariant
                    launch.wf(),
                    n * n <= a.len(),
                    n <= x.len(),
                    n <= res0.len(),
                    width == launch.threads_x(),
                    by < launch.grid.y,
                    ty < launch.block.y,
                    bx <= launch.grid.x,
                    res@ == axpy_upto(
                        a@,
                        x@,
                        res0,
                        n as int,
                        if by > 0 || ty > 0 {
                            width
                        } else {
                            bx * launch.block.x
                        },
                    ),
                decreases launch.grid.x - bx,
            {
                let mut tx: usize = 0;
                while tx < launch.block.x
                    invariant
                        launch.wf(),
                        n * n <= a.len(),
                        n <= x.len(),
                        n <= res0.len(),
                        width == launch.threads_x(),
                        by < launch.grid.y,
                        ty < launch.block.y,
                        bx < launch.grid.x,
                        tx <= launch.block.x,
                        res@ == axpy_upto(
                            a@,
                            x@,
                            res0,
                            n as int,
                            if by > 0 || ty > 0 {
                                width
                            } else {
                                bx * launch.block.x + tx
                            },
                        ),
                    decreases launch.block.x - tx,
                {
                    let id = ThreadId {
                        launch: *launch,
                        block_idx: Dim { x: bx, y: by },
                        thread_idx: Dim { x: tx, y: ty },
                    };
                    proof {
                        id.lemma_in_reach();
                    }
                    axpy_thread(&id, a, x, y, res, n);
                    proof {
                        assert(0 <= id.gx());
                        assert(res@ =~= axpy_upto(
                            a@,
                            x@,
                            res0,
                            n as int,
                            if by > 0 || ty > 0 {
                                width
                            } else {
                                bx * launch.block.x + tx + 1
                            },
                        ));
                    }
                    tx = tx + 1;
                }
                proof {
                    assert((bx + 1) * launch.block.x == bx * launch.block.x + launch.block.x)
                        by (nonlinear_arith);
                }
                bx = bx + 1;
            }
            ty = ty + 1;
        }
        by = by + 1;
    }
    proof {
        assert(launch.grid.y * launch.block.y > 0 <==> launch.grid.y > 0 && launch.block.y > 0)
            by (nonlinear_arith)
            requires
                launch.grid.y >= 0,
                launch.block.y >= 0,
        ;
    }
}

/// The matrix-vector kernel on 32-bit lanes.
pub fn saxpy(launch: &Launch, a: &[i32], x: &[i32], y: i32, res: &mut [i32], n: usize)
    requires
        launch.wf(),
        n * n <= a.len(),
        n <= x.len(),
        n <= old(res).len(),
    ensures
        final(res)@ == axpy_output(*launch, a@, x@, old(res)@, n as int),
{
    axpy(launch, a, x, y, res, n)
}

/// The matrix-vector kernel on 64-bit lanes.
pub fn daxpy(launch: &Launch, a: &[i64], x: &[i64], y: i64, res: &mut [i64], n: usize)
    requires
        launch.wf(),
        n * n <= a.len(),
        n <= x.len(),
        n <= old(res).len(),
    ensures
        final(res)@ == axpy_output(*launch, a@, x@, old(res)@, n as int),
{
    axpy(launch, a, x, y, res, n)
}

/// Under a launch that covers the rows, the result holds the matrix-vector
/// product in its first `n` elements and is unchanged behind them, whatever
/// the size of the blocks.
pub proof fn lemma_axpy_covering<E: Scalar>(launch: Launch, a: Seq<E>, x: Seq<E>, res: Seq<E>, n: int)
    requires
        0 <= n <= res.len(),
        launch.covers_x(n),
    ensures
        axpy_output(launch, a, x, res, n) == mat_vec(a, x, n) + res.subrange(n, res.len() as int),
{
    assert(axpy_output(launch, a, x, res, n) =~= mat_vec(a, x, n) + res.subrange(
        n,
        res.len() as int,
    ));
}

/// Without rows there is nothing to reduce: the result is left as it was.
pub proof fn lemma_axpy_empty<E: Scalar>(launch: Launch, a: Seq<E>, x: Seq<E>, res: Seq<E>)
    ensures
        axpy_output(launch, a, x, res, 0) == res,
{
    assert(axpy_output(launch, a, x, res, 0) =~= res);
}

/// Two threads of the kernel leave the same result in either order: no
/// thread reads what another writes, and no two threads at different
/// coordinates write the same element.
pub proof fn lemma_axpy_threads_commute<E: Scalar>(a: Seq<E>, x: Seq<E>, res: Seq<E>, n: int, g1: int, g2: int)
    requires
        n <= res.len(),
    ensures
        axpy_step(a, x, axpy_step(a, x, res, n, g1), n, g2) == axpy_step(
            a,
            x,
            axpy_step(a, x, res, n, g2),
            n,
            g1,
        ),
{
    assert(axpy_step(a, x, axpy_step(a, x, res, n, g1), n, g2) =~= axpy_step(
        a,
        x,
        axpy_step(a, x, res, n, g2),
        n,
        g1,
    ));
}

/// Whatever the launch, the kernel keeps the length of the result and
/// leaves every element behind the first `n` as it was.
pub proof fn lemma_axpy_tail<E: Scalar>(launch: Launch, a: Seq<E>, x: Seq<E>, res: Seq<E>, n: int, i: int)
    requires
        0 <= n <= i < res.len(),
    ensures
        axpy_output(launch, a, x, res, n).len() == res.len(),
        axpy_output(launch, a, x, res, n)[i] == res[i],
{
}

} // verus!
