//! Tiled matrix product: a two-dimensional grid of square blocks, each block
//! computing one tile of the output by staging tiles of both inputs through
//! shared memory.

use vstd::prelude::*;
use crate::geometry::ceil_div;
use crate::geometry::lemma_ceil_div;
use crate::geometry::lemma_coordinate_in_reach;
use crate::geometry::lemma_coordinates_identify;
use crate::geometry::thread_at;
use crate::geometry::Dim;
use crate::geometry::Launch;
use crate::geometry::Signal;
use crate::geometry::ThreadId;
use crate::index::at;
use crate::index::col_of;
use crate::index::lemma_cell_offset;
use crate::index::lemma_offset_cell;
use crate::index::lemma_offset_in_bounds;
use crate::index::lemma_offset_injective;
use crate::index::lemma_row_in_bounds;
use crate::index::offset;
use crate::index::row_of;
use crate::linalg::dot_prefix;
use crate::linalg::mat_mul;
use crate::linalg::matrix_col;
use crate::linalg::matrix_row;
use crate::scalar::Scalar;

verus! {

/// Where a thread stands in the program of the kernel.
#[derive(Clone, Copy, Debug)]
pub enum Stage {
    /// About to stage one element of each input into the shared tiles.
    Load,
    /// About to add the products of the staged tiles to its running sum.
    Accumulate,
    /// About to write its running sum to the output.
    Store,
    /// At the end of the program.
    Done,
}

/// One thread of the kernel: its identity, the dimension of the matrices,
/// the round of tiling it is in and its running sum.
pub struct GemmThread<E> {
    pub id: ThreadId,
    pub n: usize,
    pub rounds: usize,
    pub round: usize,
    pub stage: Stage,
    pub acc: E,
}

/// Cell `(row, col)` of the `n` by `n` matrix `m`, and zero outside it.
pub open spec fn padded<E: Scalar>(m: Seq<E>, n: int, row: int, col: int) -> E {
    if 0 <= row < n && 0 <= col < n {
        m[offset(row, col, n)]
    } else {
        E::zero_value()
    }
}

/// The sum of the first `k` products of row `row` of `a` with column `col` of
/// `b`, both padded with zeros, taken from the left.
pub open spec fn padded_dot<E: Scalar>(a: Seq<E>, b: Seq<E>, n: int, row: int, col: int, k: nat) -> E
    decreases k,
{
    if k == 0 {
        E::zero_value()
    } else {
        padded_dot(a, b, n, row, col, (k - 1) as nat).sum(
            padded(a, n, row, k - 1).product(padded(b, n, k - 1, col)),
        )
    }
}

/// `acc` plus the first `e` products of row `ty` of `tile_a` with column `tx`
/// of `tile_b`, taken from the left.
pub open spec fn tile_dot<E: Scalar>(
    tile_a: Seq<E>,
    tile_b: Seq<E>,
    tile: int,
    ty: int,
    tx: int,
    acc: E,
    e: nat,
) -> E
    decreases e,
{
    if e == 0 {
        acc
    } else {
        tile_dot(tile_a, tile_b, tile, ty, tx, acc, (e - 1) as nat).sum(
            tile_a[offset(ty, e - 1, tile)].product(tile_b[offset(e - 1, tx, tile)]),
        )
    }
}

impl<E: Scalar> GemmThread<E> {
    /// Side of the block and of the shared tiles.
    pub open spec fn tile(&self) -> int {
        self.id.launch.block.x as int
    }

    /// The thread's place in the shared tiles.
    pub open spec fn slot(&self) -> int {
        offset(self.id.thread_idx.y as int, self.id.thread_idx.x as int, self.tile())
    }

    /// Row of the output cell that the thread owns.
    pub open spec fn row(&self) -> int {
        self.id.gy()
    }

    /// Column of the output cell that the thread owns.
    pub open spec fn col(&self) -> int {
        self.id.gx()
    }

    /// Whether the thread's cell lies inside the matrix.
    pub open spec fn in_range(&self) -> bool {
        self.row() < self.n && self.col() < self.n
    }

    /// The thread belongs to a square block, the number of rounds is the
    /// number of tiles along one side of the matrix, and the stage agrees
    /// with the round.
    pub open spec fn wf(&self) -> bool {
        &&& self.id.wf()
        &&& self.id.launch.tiled()
        &&& self.n * self.n <= usize::MAX
        &&& self.rounds == ceil_div(self.n as int, self.tile())
        &&& match self.stage {
            Stage::Load | Stage::Accumulate => self.round < self.rounds,
            Stage::Store | Stage::Done => self.round == self.rounds,
        }
    }

    /// The element of `a` that the thread stages in the current round.
    pub open spec fn staged_a(&self, a: Seq<E>) -> E {
        padded(a, self.n as int, self.row(), self.round * self.tile() + self.id.thread_idx.x)
    }

    /// The element of `b` that the thread stages in the current round.
    pub open spec fn staged_b(&self, b: Seq<E>) -> E {
        padded(b, self.n as int, self.round * self.tile() + self.id.thread_idx.y, self.col())
    }

    /// What the thread asks of its block at the end of its next step.
    pub open spec fn signal(&self) -> Signal {
        match self.stage {
            Stage::Load | Stage::Accumulate => Signal::Barrier,
            Stage::Store | Stage::Done => Signal::Done,
        }
    }

    /// The thread after its next step, taken while the shared tiles hold
    /// `tile_a` and `tile_b`.
    pub open spec fn next(&self, tile_a: Seq<E>, tile_b: Seq<E>) -> Self {
        match self.stage {
            Stage::Load => GemmThread { stage: Stage::Accumulate, ..*self },
            Stage::Accumulate => GemmThread {
                stage: if self.round + 1 < self.rounds {
                    Stage::Load
                } else {
                    Stage::Store
                },
                round: (self.round + 1) as usize,
                acc: tile_dot(
                    tile_a,
                    tile_b,
                    self.tile(),
                    self.id.thread_idx.y as int,
                    self.id.thread_idx.x as int,
                    self.acc,
                    self.tile() as nat,
                ),
                ..*self
            },
            Stage::Store | Stage::Done => GemmThread { stage: Stage::Done, ..*self },
        }
    }

    /// A shared tile of `a` after the thread's next step: only a loading
    /// thread writes, and only its own slot.
    pub open spec fn next_tile_a(&self, a: Seq<E>, tile_a: Seq<E>) -> Seq<E> {
        match self.stage {
            Stage::Load => tile_a.update(self.slot(), self.staged_a(a)),
            _ => tile_a,
        }
    }

    /// A shared tile of `b` after the thread's next step.
    pub open spec fn next_tile_b(&self, b: Seq<E>, tile_b: Seq<E>) -> Seq<E> {
        match self.stage {
            Stage::Load => tile_b.update(self.slot(), self.staged_b(b)),
            _ => tile_b,
        }
    }

    /// The output after the thread's next step: only a storing thread whose
    /// cell lies inside the matrix writes, and only its own cell.
    pub open spec fn next_output(&self, c: Seq<E>) -> Seq<E> {
        match self.stage {
            Stage::Store => if self.in_range() {
                c.update(offset(self.row(), self.col(), self.n as int), self.acc)
            } else {
                c
            },
            _ => c,
        }
    }

    /// The thread at the start of the kernel.
    pub fn new(id: ThreadId, n: usize) -> (t: Self)
        requires
            id.wf(),
            id.launch.tiled(),
            n * n <= usize::MAX,
        ensures
            t.wf(),
            t.id == id,
            t.n == n,
            t.round == 0,
            t.acc == E::zero_value(),
            t.stage == (if t.rounds > 0 {
                Stage::Load
            } else {
                Stage::Store
            }),
    {
        let rounds: usize = crate::geometry::blocks_for(n, id.launch.block.x);
        let stage = if rounds > 0 {
            Stage::Load
        } else {
            Stage::Store
        };
        GemmThread { id, n, rounds, round: 0, stage, acc: E::zero() }
    }

    /// One step of the thread's program, up to its next barrier or its end.
    ///
    /// A thread whose cell lies outside the matrix still takes every step
    /// and reaches every barrier; it stages zeros and writes no output.
    pub fn step(
        &mut self,
        a: &[E],
        b: &[E],
        tile_a: &mut [E],
        tile_b: &mut [E],
        c: &mut [E],
    ) -> (signal: Signal)
        requires
            old(self).wf(),
            old(self).n * old(self).n <= a.len(),
            old(self).n * old(self).n <= b.len(),
            old(self).n * old(self).n <= old(c).len(),
            old(tile_a).len() == old(self).tile() * old(self).tile(),
            old(tile_b).len() == old(self).tile() * old(self).tile(),
        ensures
            signal == old(self).signal(),
            *final(self) == old(self).next(old(tile_a)@, old(tile_b)@),
            final(self).wf(),
            final(tile_a)@ == old(self).next_tile_a(a@, old(tile_a)@),
            final(tile_b)@ == old(self).next_tile_b(b@, old(tile_b)@),
            final(c)@ == old(self).next_output(old(c)@),
    {
        let tile: usize = self.id.launch.block.x;
        let tx: usize = self.id.thread_idx.x;
        let ty: usize = self.id.thread_idx.y;
        let n: usize = self.n;
        match self.stage {
            Stage::Load => {
                let row: usize = self.id.y();
                let col: usize = self.id.x();
                proof {
                    lemma_ceil_div(n as int, tile as int);
                    lemma_round_base(self.round as int, self.rounds as int, tile as int, n as int);
                    lemma_offset_in_bounds(ty as int, tx as int, tile as int, tile as int);
                }
                let base: usize = self.round * tile;
                let slot: usize = at(ty, tx, tile);
                let va: E = if row < n && tx < n - base {
                    proof {
                        lemma_offset_in_bounds(row as int, base + tx, n as int, n as int);
                    }
                    a[at(row, base + tx, n)]
                } else {
                    E::zero()
                };
                let vb: E = if col < n && ty < n - base {
                    proof {
                        lemma_offset_in_bounds(base + ty, col as int, n as int, n as int);
                    }
                    b[at(base + ty, col, n)]
                } else {
                    E::zero()
                };
                tile_a[slot] = va;
                tile_b[slot] = vb;
                self.stage = Stage::Accumulate;
                Signal::Barrier
            },
            Stage::Accumulate => {
                let start: E = self.acc;
                let mut acc: E = start;
                let mut e: usize = 0;
                while e < tile
                    invariant
                        e <= tile,
                        ty < tile,
                        tx < tile,
                        tile_a.len() == tile * tile,
                        tile_b.len() == tile * tile,
                        acc == tile_dot(
                            tile_a@,
                            tile_b@,
                            tile as int,
                            ty as int,
                            tx as int,
                            start,
                            e as nat,
                        ),
                    decreases tile - e,
                {
                    proof {
                        lemma_offset_in_bounds(ty as int, e as int, tile as int, tile as int);
                        lemma_offset_in_bounds(e as int, tx as int, tile as int, tile as int);
                    }
                    let x: E = tile_a[at(ty, e, tile)];
                    let y: E = tile_b[at(e, tx, tile)];
                    acc = acc.plus(x.times(y));
                    e = e + 1;
                }
                self.acc = acc;
                self.round = self.round + 1;
                self.stage = if self.round < self.rounds {
                    Stage::Load
                } else {
                    Stage::Store
                };
                Signal::Barrier
            },
            Stage::Store => {
                let row: usize = self.id.y();
                let col: usize = self.id.x();
                if row < n && col < n {
                    proof {
                        lemma_offset_in_bounds(row as int, col as int, n as int, n as int);
                    }
                    c[at(row, col, n)] = self.acc;
                }
                self.stage = Stage::Done;
                Signal::Done
            },
            Stage::Done => Signal::Done,
        }
    }
}

/// The first column of a round of tiling that is not the last lies inside
/// the matrix.
pub proof fn lemma_round_base(round: int, rounds: int, tile: int, n: int)
    requires
        0 <= round < rounds,
        0 < tile,
        rounds * tile < n + tile,
    ensures
        0 <= round * tile < n,
{
    assert(0 <= round * tile && round * tile + tile <= rounds * tile) by (nonlinear_arith)
        requires
            0 <= round < rounds,
            0 < tile,
    ;
}

/// The thread at `slot` of a block whose threads all stand at `stage` of
/// round `round`: its running sum holds the products of all earlier rounds.
pub open spec fn lockstep<E: Scalar>(
    launch: Launch,
    block_idx: Dim,
    a: Seq<E>,
    b: Seq<E>,
    n: usize,
    slot: int,
    stage: Stage,
    round: usize,
) -> GemmThread<E> {
    let id = thread_at(launch, block_idx, slot);
    GemmThread {
        id,
        n,
        rounds: ceil_div(n as int, launch.block.x as int) as usize,
        round,
        stage,
        acc: padded_dot(a, b, n as int, id.gy(), id.gx(), (round * launch.block.x) as nat),
    }
}

/// The stage that follows `stage` of round `round`.
pub open spec fn stage_after(stage: Stage, round: int, rounds: int) -> Stage {
    match stage {
        Stage::Load => Stage::Accumulate,
        Stage::Accumulate => if round + 1 < rounds {
            Stage::Load
        } else {
            Stage::Store
        },
        Stage::Store | Stage::Done => Stage::Done,
    }
}

/// The round that a thread is in after the step that starts at `stage`.
pub open spec fn round_after(stage: Stage, round: int) -> int {
    match stage {
        Stage::Accumulate => round + 1,
        _ => round,
    }
}

/// Number of steps that a thread at `stage` of round `round` has before it
/// stores.
pub open spec fn steps_left(stage: Stage, round: int, rounds: int) -> int {
    match stage {
        Stage::Load => 2 * (rounds - round) + 1,
        Stage::Accumulate => 2 * (rounds - round),
        Stage::Store | Stage::Done => 0,
    }
}

/// The shared tile of `a` once every thread of the block has loaded in
/// round `round`.
pub open spec fn staged_tile_a<E: Scalar>(
    launch: Launch,
    block_idx: Dim,
    a: Seq<E>,
    n: int,
    round: int,
) -> Seq<E> {
    let tile = launch.block.x as int;
    Seq::new(
        (tile * tile) as nat,
        |s: int| padded(a, n, block_idx.y * tile + row_of(s, tile), round * tile + col_of(s, tile)),
    )
}

/// The shared tile of `b` once every thread of the block has loaded in
/// round `round`.
pub open spec fn staged_tile_b<E: Scalar>(
    launch: Launch,
    block_idx: Dim,
    b: Seq<E>,
    n: int,
    round: int,
) -> Seq<E> {
    let tile = launch.block.x as int;
    Seq::new(
        (tile * tile) as nat,
        |s: int| padded(b, n, round * tile + row_of(s, tile), block_idx.x * tile + col_of(s, tile)),
    )
}

/// Whether the cell at offset `i` of the output belongs to block
/// `block_idx`.
pub open spec fn in_block(launch: Launch, block_idx: Dim, n: int, i: int) -> bool {
    let tile = launch.block.x as int;
    &&& 0 <= i < n * n
    &&& block_idx.y * tile <= row_of(i, n) < block_idx.y * tile + tile
    &&& block_idx.x * tile <= col_of(i, n) < block_idx.x * tile + tile
}

/// The slot, in its block, of the thread that owns the cell at offset `i`.
pub open spec fn slot_of(launch: Launch, block_idx: Dim, n: int, i: int) -> int {
    let tile = launch.block.x as int;
    offset(row_of(i, n) - block_idx.y * tile, col_of(i, n) - block_idx.x * tile, tile)
}

/// The output once the threads at the first `k` slots of a block have
/// stored.
pub open spec fn stored_upto<E: Scalar>(
    launch: Launch,
    block_idx: Dim,
    a: Seq<E>,
    b: Seq<E>,
    c: Seq<E>,
    n: int,
    k: int,
) -> Seq<E> {
    Seq::new(
        c.len(),
        |i: int|
            if in_block(launch, block_idx, n, i) && slot_of(launch, block_idx, n, i) < k {
                mat_mul(a, b, n)[i]
            } else {
                c[i]
            },
    )
}

/// The output once a block has run: the cells of the block that lie inside
/// the matrix hold the product, every other cell is as before.
pub open spec fn block_output<E: Scalar>(
    launch: Launch,
    block_idx: Dim,
    a: Seq<E>,
    b: Seq<E>,
    c: Seq<E>,
    n: int,
) -> Seq<E> {
    Seq::new(
        c.len(),
        |i: int|
            if in_block(launch, block_idx, n, i) {
                mat_mul(a, b, n)[i]
            } else {
                c[i]
            },
    )
}

/// Inside the matrix the padded products are the products of the row with
/// the column.
pub proof fn lemma_padded_dot_inside<E: Scalar>(a: Seq<E>, b: Seq<E>, n: int, row: int, col: int, k: nat)
    requires
        0 <= row < n,
        0 <= col < n,
        k <= n,
    ensures
        padded_dot(a, b, n, row, col, k) == dot_prefix(
            matrix_row(a, n, row),
            matrix_col(b, n, col),
            k,
        ),
    decreases k,
{
    if k > 0 {
        lemma_padded_dot_inside(a, b, n, row, col, (k - 1) as nat);
    }
}

/// Past the edge of the matrix the padded products add nothing.
pub proof fn lemma_padded_dot_outside<E: Scalar>(a: Seq<E>, b: Seq<E>, n: int, row: int, col: int, k: nat)
    requires
        0 <= n <= k,
    ensures
        padded_dot(a, b, n, row, col, k) == padded_dot(a, b, n, row, col, n as nat),
    decreases k,
{
    if k > n {
        lemma_padded_dot_outside(a, b, n, row, col, (k - 1) as nat);
        E::lemma_padding_is_neutral(padded_dot(a, b, n, row, col, (k - 1) as nat));
    }
}

/// The running sum of a thread after the last round is its cell of the
/// product.
pub proof fn lemma_last_round<E: Scalar>(a: Seq<E>, b: Seq<E>, n: int, tile: int, row: int, col: int)
    requires
        0 <= row < n,
        0 <= col < n,
        0 < tile,
    ensures
        0 <= ceil_div(n, tile) * tile,
        padded_dot(a, b, n, row, col, (ceil_div(n, tile) * tile) as nat) == mat_mul(a, b, n)[offset(
            row,
            col,
            n,
        )],
{
    lemma_ceil_div(n, tile);
    lemma_padded_dot_outside(a, b, n, row, col, (ceil_div(n, tile) * tile) as nat);
    lemma_padded_dot_inside(a, b, n, row, col, n as nat);
    crate::linalg::lemma_mat_mul_cell(a, b, n, row, col);
}

/// With the staged tiles in shared memory, the products of one round of a
/// thread are the next `tile` padded products of its row with its column.
pub proof fn lemma_tile_dot<E: Scalar>(
    launch: Launch,
    block_idx: Dim,
    a: Seq<E>,
    b: Seq<E>,
    n: int,
    round: int,
    ty: int,
    tx: int,
    e: nat,
)
    requires
        launch.tiled(),
        0 <= round,
        0 <= ty < launch.block.x,
        0 <= tx < launch.block.x,
        e <= launch.block.x,
    ensures
        0 <= round * launch.block.x,
        tile_dot(
            staged_tile_a(launch, block_idx, a, n, round),
            staged_tile_b(launch, block_idx, b, n, round),
            launch.block.x as int,
            ty,
            tx,
            padded_dot(
                a,
                b,
                n,
                block_idx.y * launch.block.x + ty,
                block_idx.x * launch.block.x + tx,
                (round * launch.block.x) as nat,
            ),
            e,
        ) == padded_dot(
            a,
            b,
            n,
            block_idx.y * launch.block.x + ty,
            block_idx.x * launch.block.x + tx,
            (round * launch.block.x + e) as nat,
        ),
    decreases e,
{
    let tile = launch.block.x as int;
    assert(0 <= round * tile) by (nonlinear_arith)
        requires
            0 <= round,
            0 < tile,
    ;
    if e > 0 {
        lemma_tile_dot(launch, block_idx, a, b, n, round, ty, tx, (e - 1) as nat);
        lemma_offset_in_bounds(ty, e - 1, tile, tile);
        lemma_offset_in_bounds(e - 1, tx, tile, tile);
        lemma_offset_cell(ty, e - 1, tile);
        lemma_offset_cell(e - 1, tx, tile);
    }
}

/// A buffer that stands for freshly allocated shared memory. What it holds
/// is left open, so that nothing proved of the kernel leans on it.
fn fresh_tile<E: Scalar>(len: usize) -> (v: Vec<E>)
    ensures
        v.len() == len,
{
    let mut v: Vec<E> = Vec::new();
    let mut i: usize = 0;
    while i < len
        invariant
            i <= len,
            v.len() == i,
        decreases len - i,
    {
        v.push(E::zero());
        i = i + 1;
    }
    v
}

/// The thread at `slot` of block `block_idx` at the start of the kernel.
pub open spec fn initial<E: Scalar>(launch: Launch, block_idx: Dim, n: usize, slot: int) -> GemmThread<E> {
    GemmThread {
        id: thread_at(launch, block_idx, slot),
        n,
        rounds: ceil_div(n as int, launch.block.x as int) as usize,
        round: 0,
        stage: if ceil_div(n as int, launch.block.x as int) > 0 {
            Stage::Load
        } else {
            Stage::Store
        },
        acc: E::zero_value(),
    }
}

/// The threads of block `block_idx` at the start of the kernel, in the order
/// of their slots.
fn spawn<E: Scalar>(launch: &Launch, block_idx: Dim, n: usize) -> (threads: Vec<GemmThread<E>>)
    requires
        launch.wf(),
        launch.tiled(),
        block_idx.x < launch.grid.x,
        block_idx.y < launch.grid.y,
        n * n <= usize::MAX,
    ensures
        threads.len() == launch.block.x * launch.block.x,
        forall|j: int| 0 <= j < threads.len() ==> threads[j] == initial::<E>(*launch, block_idx, n, j),
{
    let tile: usize = launch.block.x;
    let count: usize = tile * tile;
    let mut threads: Vec<GemmThread<E>> = Vec::new();
    let mut k: usize = 0;
    proof {
        lemma_ceil_div(n as int, tile as int);
    }
    while k < count
        invariant
            launch.wf(),
            launch.tiled(),
            block_idx.x < launch.grid.x,
            block_idx.y < launch.grid.y,
            n * n <= usize::MAX,
            tile == launch.block.x,
            count == tile * tile,
            k <= count,
            threads.len() == k,
            0 <= ceil_div(n as int, tile as int) <= n,
            forall|j: int| 0 <= j < k ==> threads[j] == initial::<E>(*launch, block_idx, n, j),
        decreases count - k,
    {
        proof {
            lemma_cell_offset(k as int, tile as int);
            lemma_row_in_bounds(k as int, tile as int, tile as int);
        }
        let id = ThreadId {
            launch: *launch,
            block_idx,
            thread_idx: Dim { x: k % tile, y: k / tile },
        };
        threads.push(GemmThread::new(id, n));
        k = k + 1;
    }
    threads
}

/// The facts that hold of every thread of a block in lockstep: it is well
/// formed, owns its slot, and stages what the staged tiles hold at its slot.
pub proof fn lemma_lockstep<E: Scalar>(
    launch: Launch,
    block_idx: Dim,
    a: Seq<E>,
    b: Seq<E>,
    n: usize,
    slot: int,
    stage: Stage,
    round: usize,
)
    requires
        launch.wf(),
        launch.tiled(),
        block_idx.x < launch.grid.x,
        block_idx.y < launch.grid.y,
        n * n <= usize::MAX,
        0 <= slot < launch.block.x * launch.block.x,
        match stage {
            Stage::Load | Stage::Accumulate => round < ceil_div(n as int, launch.block.x as int),
            Stage::Store | Stage::Done => round == ceil_div(n as int, launch.block.x as int),
        },
    ensures
        ({
            let t = lockstep(launch, block_idx, a, b, n, slot, stage, round);
            let tile = launch.block.x as int;
            &&& t.wf()
            &&& t.slot() == slot
            &&& 0 <= row_of(slot, tile) < tile
            &&& 0 <= col_of(slot, tile) < tile
            &&& t.row() == block_idx.y * tile + row_of(slot, tile)
            &&& t.col() == block_idx.x * tile + col_of(slot, tile)
            &&& t.staged_a(a) == staged_tile_a(launch, block_idx, a, n as int, round as int)[slot]
            &&& t.staged_b(b) == staged_tile_b(launch, block_idx, b, n as int, round as int)[slot]
        }),
{
    let tile = launch.block.x as int;
    lemma_ceil_div(n as int, tile);
    lemma_cell_offset(slot, tile);
    lemma_row_in_bounds(slot, tile, tile);
}

/// A thread in lockstep that accumulates over the staged tiles of its round
/// is in lockstep at the start of the next round.
pub proof fn lemma_lockstep_accumulate<E: Scalar>(
    launch: Launch,
    block_idx: Dim,
    a: Seq<E>,
    b: Seq<E>,
    n: usize,
    slot: int,
    round: usize,
)
    requires
        launch.wf(),
        launch.tiled(),
        block_idx.x < launch.grid.x,
        block_idx.y < launch.grid.y,
        n * n <= usize::MAX,
        0 <= slot < launch.block.x * launch.block.x,
        round < ceil_div(n as int, launch.block.x as int),
    ensures
        lockstep(launch, block_idx, a, b, n, slot, Stage::Accumulate, round).next(
            staged_tile_a(launch, block_idx, a, n as int, round as int),
            staged_tile_b(launch, block_idx, b, n as int, round as int),
        ) == lockstep(
            launch,
            block_idx,
            a,
            b,
            n,
            slot,
            stage_after(
                Stage::Accumulate,
                round as int,
                ceil_div(n as int, launch.block.x as int),
            ),
            (round + 1) as usize,
        ),
{
    let tile = launch.block.x as int;
    lemma_ceil_div(n as int, tile);
    lemma_lockstep(launch, block_idx, a, b, n, slot, Stage::Accumulate, round);
    lemma_tile_dot(
        launch,
        block_idx,
        a,
        b,
        n as int,
        round as int,
        row_of(slot, tile),
        col_of(slot, tile),
        tile as nat,
    );
    assert((round + 1) * tile == round * tile + tile) by (nonlinear_arith);
}

/// In a block, the threads that own a cell of the matrix are the threads
/// whose slot is the slot of that cell.
pub proof fn lemma_slot_owner(launch: Launch, block_idx: Dim, n: int, slot: int, i: int)
    requires
        launch.tiled(),
        0 <= slot < launch.block.x * launch.block.x,
        in_block(launch, block_idx, n, i),
        slot_of(launch, block_idx, n, i) == slot,
        0 < n,
    ensures
        row_of(i, n) == block_idx.y * launch.block.x + row_of(slot, launch.block.x as int),
        col_of(i, n) == block_idx.x * launch.block.x + col_of(slot, launch.block.x as int),
        i == offset(
            block_idx.y * launch.block.x + row_of(slot, launch.block.x as int),
            block_idx.x * launch.block.x + col_of(slot, launch.block.x as int),
            n,
        ),
{
    let tile = launch.block.x as int;
    lemma_cell_offset(slot, tile);
    lemma_offset_injective(
        row_of(i, n) - block_idx.y * tile,
        col_of(i, n) - block_idx.x * tile,
        row_of(slot, tile),
        col_of(slot, tile),
        tile,
    );
    lemma_cell_offset(i, n);
}

/// When the thread at `slot` stores after the threads at all lower slots,
/// the output is that of the threads up to and with `slot`.
pub proof fn lemma_store_step<E: Scalar>(
    launch: Launch,
    block_idx: Dim,
    a: Seq<E>,
    b: Seq<E>,
    c: Seq<E>,
    n: usize,
    slot: int,
)
    requires
        launch.wf(),
        launch.tiled(),
        block_idx.x < launch.grid.x,
        block_idx.y < launch.grid.y,
        n * n <= c.len(),
        n * n <= usize::MAX,
        0 <= slot < launch.block.x * launch.block.x,
    ensures
        lockstep(
            launch,
            block_idx,
            a,
            b,
            n,
            slot,
            Stage::Store,
            ceil_div(n as int, launch.block.x as int) as usize,
        ).next_output(stored_upto(launch, block_idx, a, b, c, n as int, slot)) == stored_upto(
            launch,
            block_idx,
            a,
            b,
            c,
            n as int,
            slot + 1,
        ),
{
    let tile = launch.block.x as int;
    let rounds = ceil_div(n as int, tile);
    lemma_ceil_div(n as int, tile);
    let t = lockstep(launch, block_idx, a, b, n, slot, Stage::Store, rounds as usize);
    lemma_lockstep(launch, block_idx, a, b, n, slot, Stage::Store, rounds as usize);
    let before = stored_upto(launch, block_idx, a, b, c, n as int, slot);
    let after = stored_upto(launch, block_idx, a, b, c, n as int, slot + 1);
    let row = t.row();
    let col = t.col();
    lemma_coordinate_in_reach(
        block_idx.y as int,
        tile,
        row_of(slot, tile),
        launch.grid.y as int,
    );
    lemma_coordinate_in_reach(
        block_idx.x as int,
        tile,
        col_of(slot, tile),
        launch.grid.x as int,
    );
    if t.in_range() {
        let p = offset(row, col, n as int);
        lemma_offset_in_bounds(row, col, n as int, n as int);
        lemma_offset_cell(row, col, n as int);
        lemma_last_round(a, b, n as int, tile, row, col);
        assert(in_block(launch, block_idx, n as int, p));
        assert(slot_of(launch, block_idx, n as int, p) == slot);
        assert forall|i: int| 0 <= i < c.len() implies before.update(p, t.acc)[i] == after[i] by {
            if i != p && in_block(launch, block_idx, n as int, i) && slot_of(
                launch,
                block_idx,
                n as int,
                i,
            ) == slot {
                lemma_slot_owner(launch, block_idx, n as int, slot, i);
            }
        }
        assert(before.update(p, t.acc) =~= after);
    } else {
        assert forall|i: int| 0 <= i < c.len() implies before[i] == after[i] by {
            if in_block(launch, block_idx, n as int, i) && slot_of(launch, block_idx, n as int, i)
                == slot {
                assert(0 < n) by (nonlinear_arith)
                    requires
                        0 <= i < n * n,
                ;
                lemma_slot_owner(launch, block_idx, n as int, slot, i);
                lemma_row_in_bounds(i, n as int, n as int);
                lemma_cell_offset(i, n as int);
            }
        }
        assert(before =~= after);
    }
}

/// One block of the kernel: every thread of the block is driven, step by
/// step, from the start of its program to its end. A barrier is released
/// when all threads of the block have arrived at it, which they do in the
/// same step.
pub fn gemm_block<E: Scalar>(
    launch: &Launch,
    block_idx: Dim,
    a: &[E],
    b: &[E],
    c: &mut [E],
    n: usize,
)
    requires
        launch.wf(),
        launch.tiled(),
        block_idx.x < launch.grid.x,
        block_idx.y < launch.grid.y,
        n * n <= a.len(),
        n * n <= b.len(),
        n * n <= old(c).len(),
    ensures
        final(c)@ == block_output(*launch, block_idx, a@, b@, old(c)@, n as int),
{
    let tile: usize = launch.block.x;
    let count: usize = tile * tile;
    let mut tile_a: Vec<E> = fresh_tile(count);
    let mut tile_b: Vec<E> = fresh_tile(count);
    let mut threads: Vec<GemmThread<E>> = spawn(launch, block_idx, n);
    let ghost c0 = c@;
    let ghost rounds = ceil_div(n as int, tile as int);
    let ghost mut stage = if rounds > 0 {
        Stage::Load
    } else {
        Stage::Store
    };
    let ghost mut round: usize = 0;
    proof {
        lemma_ceil_div(n as int, tile as int);
        assert(tile * tile >= 1) by (nonlinear_arith)
            requires
                tile >= 1,
        ;
        assert(0 * tile == 0);
        assert forall|j: int| 0 <= j < count implies threads[j] == lockstep(
            *launch,
            block_idx,
            a@,
            b@,
            n,
            j,
            stage,
            round,
        ) by {
            assert(threads[j] == initial::<E>(*launch, block_idx, n, j));
        }
    }
    loop
        invariant_except_break
            launch.wf(),
            launch.tiled(),
            block_idx.x < launch.grid.x,
            block_idx.y < launch.grid.y,
            n * n <= a.len(),
            n * n <= b.len(),
            n * n <= c0.len(),
            tile == launch.block.x,
            count == tile * tile,
            count >= 1,
            rounds == ceil_div(n as int, tile as int),
            0 <= rounds <= n,
            threads.len() == count,
            tile_a.len() == count,
            tile_b.len() == count,
            forall|j: int|
                0 <= j < count ==> threads[j] == lockstep(
                    *launch,
                    block_idx,
                    a@,
                    b@,
                    n,
                    j,
                    stage,
                    round,
                ),
            match stage {
                Stage::Load => round < rounds,
                Stage::Accumulate => {
                    &&& round < rounds
                    &&& tile_a@ == staged_tile_a(*launch, block_idx, a@, n as int, round as int)
                    &&& tile_b@ == staged_tile_b(*launch, block_idx, b@, n as int, round as int)
                },
                Stage::Store => round == rounds,
                Stage::Done => false,
            },
            c@ == c0,
        ensures
            c@ == block_output(*launch, block_idx, a@, b@, c0, n as int),
        decreases steps_left(stage, round as int, rounds),
    {
        let mut signal = Signal::Done;
        let mut k: usize = 0;
        while k < count
            invariant
                launch.wf(),
                launch.tiled(),
                block_idx.x < launch.grid.x,
                block_idx.y < launch.grid.y,
                n * n <= a.len(),
                n * n <= b.len(),
                n * n <= c0.len(),
                tile == launch.block.x,
                count == tile * tile,
                count >= 1,
                rounds == ceil_div(n as int, tile as int),
                0 <= rounds <= n,
                k <= count,
                threads.len() == count,
                tile_a.len() == count,
                tile_b.len() == count,
                c.len() == c0.len(),
                forall|j: int|
                    0 <= j < k ==> threads[j] == lockstep(
                        *launch,
                        block_idx,
                        a@,
                        b@,
                        n,
                        j,
                        stage_after(stage, round as int, rounds),
                        round_after(stage, round as int) as usize,
                    ),
                forall|j: int|
                    k <= j < count ==> threads[j] == lockstep(
                        *launch,
                        block_idx,
                        a@,
                        b@,
                        n,
                        j,
                        stage,
                        round,
                    ),
                k > 0 ==> signal == lockstep(*launch, block_idx, a@, b@, n, 0, stage, round).signal(),
                match stage {
                    Stage::Load => {
                        &&& round < rounds
                        &&& c@ == c0
                        &&& forall|s: int|
                            0 <= s < k ==> tile_a[s] == staged_tile_a(
                                *launch,
                                block_idx,
                                a@,
                                n as int,
                                round as int,
                            )[s]
                        &&& forall|s: int|
                            0 <= s < k ==> tile_b[s] == staged_tile_b(
                                *launch,
                                block_idx,
                                b@,
                                n as int,
                                round as int,
                            )[s]
                    },
                    Stage::Accumulate => {
                        &&& round < rounds
                        &&& c@ == c0
                        &&& tile_a@ == staged_tile_a(*launch, block_idx, a@, n as int, round as int)
                        &&& tile_b@ == staged_tile_b(*launch, block_idx, b@, n as int, round as int)
                    },
                    Stage::Store => {
                        &&& round == rounds
                        &&& c@ == stored_upto(*launch, block_idx, a@, b@, c0, n as int, k as int)
                    },
                    Stage::Done => false,
                },
            decreases count - k,
        {
            proof {
                lemma_lockstep(*launch, block_idx, a@, b@, n, k as int, stage, round);
                match stage {
                    Stage::Accumulate => {
                        lemma_lockstep_accumulate(*launch, block_idx, a@, b@, n, k as int, round);
                    },
                    Stage::Store => {
                        lemma_store_step(*launch, block_idx, a@, b@, c0, n, k as int);
                    },
                    _ => {},
                }
            }
            signal = threads[k].step(a, b, &mut tile_a, &mut tile_b, c);
            k = k + 1;
        }
        proof {
            match stage {
                Stage::Load => {
                    assert(tile_a@ =~= staged_tile_a(
                        *launch,
                        block_idx,
                        a@,
                        n as int,
                        round as int,
                    ));
                    assert(tile_b@ =~= staged_tile_b(
                        *launch,
                        block_idx,
                        b@,
                        n as int,
                        round as int,
                    ));
                },
                Stage::Store => {
                    assert forall|i: int| 0 <= i < c0.len() implies c@[i] == block_output(
                        *launch,
                        block_idx,
                        a@,
                        b@,
                        c0,
                        n as int,
                    )[i] by {
                        if in_block(*launch, block_idx, n as int, i) {
                            lemma_offset_in_bounds(
                                row_of(i, n as int) - block_idx.y * tile,
                                col_of(i, n as int) - block_idx.x * tile,
                                tile as int,
                                tile as int,
                            );
                        }
                    }
                    assert(c@ =~= block_output(*launch, block_idx, a@, b@, c0, n as int));
                },
                _ => {},
            }
            let before = stage;
            stage = stage_after(before, round as int, rounds);
            round = round_after(before, round as int) as usize;
        }
        match signal {
            Signal::Done => {
                break ;
            },
            Signal::Barrier => {},
        }
    }
}

/// Whether the cell at offset `i` of the output belongs to a block that
/// comes before block `(bx, by)` when the blocks run row by row.
pub open spec fn in_earlier_block(launch: Launch, n: int, by: int, bx: int, i: int) -> bool {
    let tile = launch.block.x as int;
    &&& 0 <= i < n * n
    &&& col_of(i, n) < launch.grid.x * tile
    &&& (row_of(i, n) < by * tile || (row_of(i, n) < by * tile + tile && col_of(i, n) < bx
        * tile))
}

/// The output once every block before block `(bx, by)` has run.
pub open spec fn gemm_upto<E: Scalar>(
    launch: Launch,
    a: Seq<E>,
    b: Seq<E>,
    c: Seq<E>,
    n: int,
    by: int,
    bx: int,
) -> Seq<E> {
    Seq::new(
        c.len(),
        |i: int|
            if in_earlier_block(launch, n, by, bx, i) {
                mat_mul(a, b, n)[i]
            } else {
                c[i]
            },
    )
}

/// Whether the cell at offset `i` of an `n` by `n` matrix is owned by a
/// thread of the launch.
pub open spec fn in_reach(launch: Launch, n: int, i: int) -> bool {
    &&& 0 <= i < n * n
    &&& row_of(i, n) < launch.reach_y()
    &&& col_of(i, n) < launch.reach_x()
}

/// The output of the kernel: every cell of the matrix that a thread of the
/// launch owns holds the product, every other cell of the buffer is as
/// before.
pub open spec fn gemm_output<E: Scalar>(launch: Launch, a: Seq<E>, b: Seq<E>, c: Seq<E>, n: int) -> Seq<
    E,
> {
    Seq::new(
        c.len(),
        |i: int|
            if in_reach(launch, n, i) {
                mat_mul(a, b, n)[i]
            } else {
                c[i]
            },
    )
}

/// The tiled matrix product `c = a * b` of `n` by `n` matrices, launched on
/// a grid of square blocks.
///
/// The side of the block is the side of the tiles; it need not divide `n`.
pub fn gemm<E: Scalar>(launch: &Launch, a: &[E], b: &[E], c: &mut [E], n: usize)
    requires
        launch.wf(),
        launch.tiled(),
        n * n <= a.len(),
        n * n <= b.len(),
        n * n <= old(c).len(),
    ensures
        final(c)@ == gemm_output(*launch, a@, b@, old(c)@, n as int),
{
    let ghost c0 = c@;
    let ghost tile = launch.block.x as int;
    let mut by: usize = 0;
    assert(c@ =~= gemm_upto(*launch, a@, b@, c0, n as int, 0, 0)) by {
        assert(0 * tile == 0);
    }
    while by < launch.grid.y
        invariant
            launch.wf(),
            launch.tiled(),
            n * n <= a.len(),
            n * n <= b.len(),
            n * n <= c0.len(),
            tile == launch.block.x,
            by <= launch.grid.y,
            c@ == gemm_upto(*launch, a@, b@, c0, n as int, by as int, 0),
        decreases launch.grid.y - by,
    {
        let mut bx: usize = 0;
        while bx < launch.grid.x
            invariant
                launch.wf(),
                launch.tiled(),
                n * n <= a.len(),
                n * n <= b.len(),
                n * n <= c0.len(),
                tile == launch.block.x,
                by < launch.grid.y,
                bx <= launch.grid.x,
                c@ == gemm_upto(*launch, a@, b@, c0, n as int, by as int, bx as int),
            decreases launch.grid.x - bx,
        {
            gemm_block(launch, Dim { x: bx, y: by }, a, b, c, n);
            proof {
                assert((bx + 1) * tile == bx * tile + tile) by (nonlinear_arith);
                assert((bx + 1) * tile <= launch.grid.x * tile) by (nonlinear_arith)
                    requires
                        bx + 1 <= launch.grid.x,
                        0 <= tile,
                ;
                assert(c@ =~= gemm_upto(
                    *launch,
                    a@,
                    b@,
                    c0,
                    n as int,
                    by as int,
                    bx as int + 1,
                ));
            }
            bx = bx + 1;
        }
        proof {
            assert((by + 1) * tile == by * tile + tile) by (nonlinear_arith);
            assert(0 * tile == 0);
            assert forall|i: int| 0 <= i < n * n implies 0 <= col_of(i, n as int) by {
                lemma_cell_offset(i, n as int);
            }
            assert(c@ =~= gemm_upto(*launch, a@, b@, c0, n as int, by as int + 1, 0));
        }
        by = by + 1;
    }
    proof {
        assert(launch.grid.x * tile > 0 <==> launch.grid.x > 0) by (nonlinear_arith)
            requires
                tile >= 1,
                launch.grid.x >= 0,
        ;
        assert(launch.grid.y * tile > 0 <==> launch.grid.y > 0) by (nonlinear_arith)
            requires
                tile >= 1,
                launch.grid.y >= 0,
        ;
        assert(0 * tile == 0);
        assert forall|i: int| 0 <= i < n * n implies 0 <= col_of(i, n as int) && 0 <= row_of(
            i,
            n as int,
        ) by {
            lemma_cell_offset(i, n as int);
        }
        assert(c@ =~= gemm_output(*launch, a@, b@, c0, n as int));
    }
}

/// The tiled matrix product on 64-bit lanes.
pub fn dgemm(launch: &Launch, a: &[i64], b: &[i64], c: &mut [i64], n: usize)
    requires
        launch.wf(),
        launch.tiled(),
        n * n <= a.len(),
        n * n <= b.len(),
        n * n <= old(c).len(),
    ensures
        final(c)@ == gemm_output(*launch, a@, b@, old(c)@, n as int),
{
    gemm(launch, a, b, c, n)
}

/// Under a launch that covers the matrix, the output holds the product in
/// its first `n * n` cells and is unchanged behind them, whatever the side
/// of the tiles and whether or not it divides `n`.
pub proof fn lemma_gemm_covering<E: Scalar>(launch: Launch, a: Seq<E>, b: Seq<E>, c: Seq<E>, n: int)
    requires
        0 <= n,
        n * n <= c.len(),
        launch.covers_x(n),
        launch.covers_y(n),
    ensures
        gemm_output(launch, a, b, c, n) == mat_mul(a, b, n) + c.subrange(n * n, c.len() as int),
{
    let out = gemm_output(launch, a, b, c, n);
    let want = mat_mul(a, b, n) + c.subrange(n * n, c.len() as int);
    assert(out.len() == want.len());
    assert forall|i: int| 0 <= i < out.len() implies out[i] == want[i] by {
        if i < n * n {
            assert(0 < n) by (nonlinear_arith)
                requires
                    0 <= i < n * n,
                    0 <= n,
            ;
            lemma_cell_offset(i, n);
            lemma_row_in_bounds(i, n, n);
        }
    }
    assert(out =~= want);
}

/// Whatever the launch, the kernel keeps the length of the output and
/// leaves every element behind the matrix as it was.
pub proof fn lemma_gemm_tail<E: Scalar>(launch: Launch, a: Seq<E>, b: Seq<E>, c: Seq<E>, n: int, i: int)
    requires
        0 <= n * n <= i < c.len(),
    ensures
        gemm_output(launch, a, b, c, n).len() == c.len(),
        gemm_output(launch, a, b, c, n)[i] == c[i],
{
}

/// No barrier divergence: two threads at the same stage of the same round
/// hand out the same signal, and stand at the same stage of the same round
/// again after their step, wherever they lie in the block and whether or
/// not their cell lies inside the matrix.
pub proof fn lemma_gemm_no_divergence<E: Scalar>(
    s: GemmThread<E>,
    t: GemmThread<E>,
    tile_a: Seq<E>,
    tile_b: Seq<E>,
)
    requires
        s.stage == t.stage,
        s.round == t.round,
        s.rounds == t.rounds,
    ensures
        s.signal() == t.signal(),
        s.next(tile_a, tile_b).stage == t.next(tile_a, tile_b).stage,
        s.next(tile_a, tile_b).round == t.next(tile_a, tile_b).round,
        s.next(tile_a, tile_b).rounds == t.next(tile_a, tile_b).rounds,
{
}

/// A thread reaches two barriers in each round of tiling, one after its
/// load and one after its sum, and none after its store.
pub proof fn lemma_gemm_barriers<E: Scalar>(t: GemmThread<E>, tile_a: Seq<E>, tile_b: Seq<E>)
    requires
        t.wf(),
    ensures
        t.stage is Load ==> t.signal() is Barrier && t.next(tile_a, tile_b).stage is Accumulate,
        t.stage is Accumulate ==> t.signal() is Barrier && (t.next(tile_a, tile_b).stage is Load
            || t.next(tile_a, tile_b).stage is Store),
        t.stage is Store ==> t.signal() is Done && t.next(tile_a, tile_b).stage is Done,
        t.stage is Done ==> t.signal() is Done && t.next(tile_a, tile_b) == t,
        steps_left(
            t.next(tile_a, tile_b).stage,
            t.next(tile_a, tile_b).round as int,
            t.rounds as int,
        ) < steps_left(t.stage, t.round as int, t.rounds as int) || t.signal() is Done,
{
}

/// No write races: two different threads of one block own different slots of
/// the shared tiles, and two different threads of one launch whose cells
/// lie inside the matrix own different cells of the output.
pub proof fn lemma_gemm_owners_differ<E: Scalar>(s: GemmThread<E>, t: GemmThread<E>)
    requires
        s.wf(),
        t.wf(),
        s.id.launch == t.id.launch,
        s.n == t.n,
        s.id != t.id,
    ensures
        s.id.block_idx == t.id.block_idx ==> s.slot() != t.slot(),
        s.in_range() && t.in_range() ==> offset(s.row(), s.col(), s.n as int) != offset(
            t.row(),
            t.col(),
            t.n as int,
        ),
{
    if s.id.block_idx == t.id.block_idx && s.slot() == t.slot() {
        lemma_offset_injective(
            s.id.thread_idx.y as int,
            s.id.thread_idx.x as int,
            t.id.thread_idx.y as int,
            t.id.thread_idx.x as int,
            s.tile(),
        );
    }
    if s.in_range() && t.in_range() && offset(s.row(), s.col(), s.n as int) == offset(
        t.row(),
        t.col(),
        t.n as int,
    ) {
        s.id.lemma_in_reach();
        t.id.lemma_in_reach();
        lemma_offset_injective(s.row(), s.col(), t.row(), t.col(), s.n as int);
        lemma_coordinates_identify(s.id, t.id);
    }
}

/// Within one stage the order of the threads of a block does not matter:
/// the steps of two threads with different slots and different cells leave
/// the same shared tiles and the same output in either order.
pub proof fn lemma_gemm_steps_commute<E: Scalar>(
    s: GemmThread<E>,
    t: GemmThread<E>,
    a: Seq<E>,
    b: Seq<E>,
    tile_a: Seq<E>,
    tile_b: Seq<E>,
    c: Seq<E>,
)
    requires
        s.stage == t.stage,
        s.slot() != t.slot(),
        0 <= s.slot() < tile_a.len(),
        0 <= t.slot() < tile_a.len(),
        tile_a.len() == tile_b.len(),
        s.in_range() ==> 0 <= offset(s.row(), s.col(), s.n as int) < c.len(),
        t.in_range() ==> 0 <= offset(t.row(), t.col(), t.n as int) < c.len(),
        s.in_range() && t.in_range() ==> offset(s.row(), s.col(), s.n as int) != offset(
            t.row(),
            t.col(),
            t.n as int,
        ),
    ensures
        t.next_tile_a(a, s.next_tile_a(a, tile_a)) == s.next_tile_a(a, t.next_tile_a(a, tile_a)),
        t.next_tile_b(b, s.next_tile_b(b, tile_b)) == s.next_tile_b(b, t.next_tile_b(b, tile_b)),
        t.next_output(s.next_output(c)) == s.next_output(t.next_output(c)),
        s.stage is Accumulate ==> s.next_tile_a(a, tile_a) == tile_a && s.next_tile_b(b, tile_b)
            == tile_b,
{
    assert(t.next_tile_a(a, s.next_tile_a(a, tile_a)) =~= s.next_tile_a(
        a,
        t.next_tile_a(a, tile_a),
    ));
    assert(t.next_tile_b(b, s.next_tile_b(b, tile_b)) =~= s.next_tile_b(
        b,
        t.next_tile_b(b, tile_b),
    ));
    assert(t.next_output(s.next_output(c)) =~= s.next_output(t.next_output(c)));
}

} // verus!
