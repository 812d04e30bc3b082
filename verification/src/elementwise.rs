//! Elementwise sum of two vectors, one thread per element.

use vstd::prelude::*;
use crate::geometry::Dim;
use crate::geometry::Launch;
use crate::geometry::ThreadId;
use crate::scalar::Scalar;

verus! {

/// The output buffer once the threads at the first `k` x coordinates have
/// run: each of the first `a.len()` of them has written the sum of its
/// elements, every other element is as before.
pub open spec fn add_upto<E: Scalar>(a: Seq<E>, b: Seq<E>, c: Seq<E>, k: int) -> Seq<E> {
    Seq::new(
        c.len(),
        |i: int|
            if i < a.len() && i < k {
                a[i].sum(b[i])
            } else {
                c[i]
            },
    )
}

/// The output buffer after the kernel.
pub open spec fn add_output<E: Scalar>(launch: Launch, a: Seq<E>, b: Seq<E>, c: Seq<E>) -> Seq<E> {
    add_upto(a, b, c, launch.reach_x())
}

/// The output buffer once the thread at x coordinate `g` has run on it.
pub open spec fn add_step<E: Scalar>(a: Seq<E>, b: Seq<E>, c: Seq<E>, g: int) -> Seq<E> {
    if 0 <= g < a.len() {
        c.update(g, a[g].sum(b[g]))
    } else {
        c
    }
}

/// The elementwise sum of `a` and `b`.
pub open spec fn vector_sum<E: Scalar>(a: Seq<E>, b: Seq<E>) -> Seq<E> {
    Seq::new(a.len(), |i: int| a[i].sum(b[i]))
}

/// The program of one thread: the thread at x coordinate `idx` writes
/// `a[idx] + b[idx]` to `c[idx]`; a thread past the end of `a` touches no
/// buffer.
pub fn add_thread<E: Scalar>(id: &ThreadId, a: &[E], b: &[E], c: &mut [E])
    requires
        id.wf(),
        a.len() <= b.len(),
        a.len() <= old(c).len(),
    ensures
        final(c)@ == add_step(a@, b@, old(c)@, id.gx()),
{
    proof {
        id.lemma_in_reach();
    }
    let idx: usize = id.x();
    if idx < a.len() {
        c[idx] = a[idx].plus(b[idx]);
    }
}

/// The elementwise kernel launched on a grid: every thread of the launch
/// runs, row of threads by row of threads.
pub fn add<E: Scalar>(launch: &Launch, a: &[E], b: &[E], c: &mut [E])
    requires
        launch.wf(),
        a.len() <= b.len(),
        a.len() <= old(c).len(),
    ensures
        final(c)@ == add_output(*launch, a@, b@, old(c)@),
{
    let ghost c0 = c@;
    let ghost width = launch.threads_x();
    let mut by: usize = 0;
    assert(c@ =~= add_upto(a@, b@, c0, 0));
    while by < launch.grid.y
        invariant
            launch.wf(),
            a.len() <= b.len(),
            a.len() <= c0.len(),
            width == launch.threads_x(),
            by <= launch.grid.y,
            c@ == add_upto(
                a@,
                b@,
                c0,
                if by > 0 && launch.block.y > 0 {
                    width
                } else {
                    0
                },
            ),
        decreases launch.grid.y - by,
    {
        let mut ty: usize = 0;
        while ty < launch.block.y
            invariant
                launch.wf(),
                a.len() <= b.len(),
                a.len() <= c0.len(),
                width == launch.threads_x(),
                by < launch.grid.y,
                ty <= launch.block.y,
                c@ == add_upto(
                    a@,
                    b@,
                    c0,
                    if (by > 0 && launch.block.y > 0) || ty > 0 {
                        width
                    } else {
                        0
                    },
                ),
            decreases launch.block.y - ty,
        {
            let mut bx: usize = 0;
            proof {
                assert(0 * launch.block.x == 0);
            }
            while bx < launch.grid.x
                invariant
                    launch.wf(),
                    a.len() <= b.len(),
                    a.len() <= c0.len(),
                    width == launch.threads_x(),
                    by < launch.grid.y,
                    ty < launch.block.y,
                    bx <= launch.grid.x,
                    c@ == add_upto(
                        a@,
                        b@,
                        c0,
                        if by > 0 || ty > 0 {
                            width
                        } else {
                            bx * launch.block.x
                        },
                    ),
                decreases launch.grid.x - bx,
            {
                let mut tx: usize = 0;
                while tx < launch.block.x
                    invariant
                        launch.wf(),
                        a.len() <= b.len(),
                        a.len() <= c0.len(),
                        width == launch.threads_x(),
                        by < launch.grid.y,
                        ty < launch.block.y,
                        bx < launch.grid.x,
                        tx <= launch.block.x,
                        c@ == add_upto(
                            a@,
                            b@,
                            c0,
                            if by > 0 || ty > 0 {
                                width
                            } else {
                                bx * launch.block.x + tx
                            },
                        ),
                    decreases launch.block.x - tx,
                {
                    let id = ThreadId {
                        launch: *launch,
                        block_idx: Dim { x: bx, y: by },
                        thread_idx: Dim { x: tx, y: ty },
                    };
                    proof {
                        id.lemma_in_reach();
                    }
                    add_thread(&id, a, b, c);
                    proof {
                        assert(0 <= id.gx());
                        assert(c@ =~= add_upto(
                            a@,
                            b@,
                            c0,
                            if by > 0 || ty > 0 {
                                width
                            } else {
                                bx * launch.block.x + tx + 1
                            },
                        ));
                    }
                    tx = tx + 1;
                }
                proof {
                    assert((bx + 1) * launch.block.x == bx * launch.block.x + launch.block.x)
                        by (nonlinear_arith);
                }
                bx = bx + 1;
            }
            ty = ty + 1;
        }
        by = by + 1;
    }
    proof {
        assert(launch.grid.y * launch.block.y > 0 <==> launch.grid.y > 0 && launch.block.y > 0)
            by (nonlinear_arith)
            requires
                launch.grid.y >= 0,
                launch.block.y >= 0,
        ;
    }
}

/// Under a launch that covers `a`, the output holds the elementwise sum in
/// its first `a.len()` elements and is unchanged behind them, whatever the
/// size of the blocks and whether or not it divides the length.
pub proof fn lemma_add_covering<E: Scalar>(launch: Launch, a: Seq<E>, b: Seq<E>, c: Seq<E>)
    requires
        a.len() <= c.len(),
        launch.covers_x(a.len() as int),
    ensures
        add_output(launch, a, b, c) == vector_sum(a, b) + c.subrange(a.len() as int, c.len() as int),
{
    assert(add_output(launch, a, b, c) =~= vector_sum(a, b) + c.subrange(
        a.len() as int,
        c.len() as int,
    ));
}

/// Two threads of the kernel leave the same output in either order: no
/// thread reads what another writes, and no two threads at different
/// coordinates write the same element.
pub proof fn lemma_add_threads_commute<E: Scalar>(a: Seq<E>, b: Seq<E>, c: Seq<E>, g1: int, g2: int)
    requires
        a.len() <= c.len(),
    ensures
        add_step(a, b, add_step(a, b, c, g1), g2) == add_step(a, b, add_step(a, b, c, g2), g1),
{
    assert(add_step(a, b, add_step(a, b, c, g1), g2) =~= add_step(a, b, add_step(a, b, c, g2), g1));
}

/// Whatever the launch, the kernel keeps the length of the output and
/// leaves every element behind the end of `a` as it was.
pub proof fn lemma_add_tail<E: Scalar>(launch: Launch, a: Seq<E>, b: Seq<E>, c: Seq<E>, i: int)
    requires
        a.len() <= i < c.len(),
    ensures
        add_output(launch, a, b, c).len() == c.len(),
        add_output(launch, a, b, c)[i] == c[i],
{
}

} // verus!
