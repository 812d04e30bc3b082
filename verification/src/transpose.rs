//! Tiled transpose: each block stages one tile of the input in shared memory
//! and writes it out transposed, so that both the reads and the writes of
//! neighbouring threads touch neighbouring cells.
//!
//! A block has as many rows of threads as the tile has rows, so each thread
//! moves one cell.

use vstd::prelude::*;
use crate::geometry::lemma_coordinate_in_reach;
use crate::geometry::thread_at;
use crate::geometry::Dim;
use crate::geometry::Launch;
use crate::geometry::Signal;
use crate::geometry::ThreadId;
use crate::index::at;
use crate::index::col_of;
use crate::index::lemma_cell_offset;
use crate::index::lemma_offset_cell;
use crate::index::lemma_offset_in_bounds;
use crate::index::lemma_offset_injective;
use crate::index::lemma_row_in_bounds;
use crate::index::offset;
use crate::index::row_of;
use crate::linalg::transposed;

verus! {

/// Where a thread stands in the program of the kernel.
#[derive(Clone, Copy, Debug)]
pub enum Phase {
    /// About to copy its cell of the input into the shared tile.
    Load,
    /// About to copy the mirrored cell of the shared tile to the output.
    Store,
    /// At the end of the program.
    Done,
}

/// One thread of the kernel.
#[derive(Clone, Copy, Debug)]
pub struct TransposeThread {
    pub id: ThreadId,
    pub n: usize,
    pub phase: Phase,
}

impl TransposeThread {
    /// Side of the block and of the shared tile.
    pub open spec fn tile(&self) -> int {
        self.id.launch.block.x as int
    }

    /// The slot of the shared tile that the thread fills.
    pub open spec fn slot(&self) -> int {
        offset(self.id.thread_idx.y as int, self.id.thread_idx.x as int, self.tile())
    }

    /// The slot of the shared tile that the thread reads back: its own,
    /// mirrored.
    pub open spec fn mirror(&self) -> int {
        offset(self.id.thread_idx.x as int, self.id.thread_idx.y as int, self.tile())
    }

    /// Row of the input cell that the thread reads.
    pub open spec fn read_row(&self) -> int {
        self.id.gy()
    }

    /// Column of the input cell that the thread reads.
    pub open spec fn read_col(&self) -> int {
        self.id.gx()
    }

    /// Row of the output cell that the thread writes: the block is mirrored,
    /// the thread keeps its place in it.
    pub open spec fn write_row(&self) -> int {
        self.id.block_idx.x * self.tile() + self.id.thread_idx.y
    }

    /// Column of the output cell that the thread writes.
    pub open spec fn write_col(&self) -> int {
        self.id.block_idx.y * self.tile() + self.id.thread_idx.x
    }

    /// Whether the cell that the thread reads lies inside the matrix.
    pub open spec fn loads(&self) -> bool {
        self.read_row() < self.n && self.read_col() < self.n
    }

    /// Whether the cell that the thread writes lies inside the matrix.
    pub open spec fn stores(&self) -> bool {
        self.write_row() < self.n && self.write_col() < self.n
    }

    /// The thread belongs to a square block of a launch, and the matrix fits
    /// a buffer.
    pub open spec fn wf(&self) -> bool {
        &&& self.id.wf()
        &&& self.id.launch.tiled()
        &&& self.n * self.n <= usize::MAX
    }

    /// What the thread asks of its block at the end of its next step.
    pub open spec fn signal(&self) -> Signal {
        match self.phase {
            Phase::Load => Signal::Barrier,
            Phase::Store | Phase::Done => Signal::Done,
        }
    }

    /// The thread after its next step.
    pub open spec fn next(&self) -> Self {
        match self.phase {
            Phase::Load => TransposeThread { phase: Phase::Store, ..*self },
            Phase::Store | Phase::Done => TransposeThread { phase: Phase::Done, ..*self },
        }
    }

    /// The shared tile after the thread's next step: only a loading thread
    /// whose cell lies inside the matrix writes, and only its own slot.
    pub open spec fn next_tile<T>(&self, input: Seq<T>, tile: Seq<Option<T>>) -> Seq<Option<T>> {
        match self.phase {
            Phase::Load => if self.loads() {
                tile.update(
                    self.slot(),
                    Some(input[offset(self.read_row(), self.read_col(), self.n as int)]),
                )
            } else {
                tile
            },
            _ => tile,
        }
    }

    /// The output after the thread's next step: only a storing thread whose
    /// cell lies inside the matrix writes, and only its own cell.
    pub open spec fn next_output<T>(&self, tile: Seq<Option<T>>, output: Seq<T>) -> Seq<T> {
        match self.phase {
            Phase::Store => if self.stores() {
                output.update(
                    offset(self.write_row(), self.write_col(), self.n as int),
                    tile[self.mirror()]->0,
                )
            } else {
                output
            },
            _ => output,
        }
    }

    /// Whether the thread may take its next step: a storing thread reads a
    /// slot of the shared tile, which some thread must have filled before the
    /// barrier.
    pub open spec fn ready<T>(&self, tile: Seq<Option<T>>) -> bool {
        (self.phase is Store && self.stores()) ==> tile[self.mirror()] is Some
    }

    /// The thread at the start of the kernel.
    pub fn new(id: ThreadId, n: usize) -> (t: Self)
        requires
            id.wf(),
            id.launch.tiled(),
            n * n <= usize::MAX,
        ensures
            t.wf(),
            t == (TransposeThread { id, n, phase: Phase::Load }),
    {
        TransposeThread { id, n, phase: Phase::Load }
    }

    /// One step of the thread's program, up to its barrier or its end.
    ///
    /// A thread whose cell lies outside the matrix touches no buffer, and
    /// still reaches the barrier.
    pub fn step<T: Copy>(&mut self, input: &[T], tile: &mut [Option<T>], output: &mut [T]) -> (signal:
        Signal)
        requires
            old(self).wf(),
            old(self).n * old(self).n <= input.len(),
            old(self).n * old(self).n <= old(output).len(),
            old(tile).len() == old(self).tile() * old(self).tile(),
            old(self).ready(old(tile)@),
        ensures
            signal == old(self).signal(),
            *final(self) == old(self).next(),
            final(self).wf(),
            final(tile)@ == old(self).next_tile(input@, old(tile)@),
            final(output)@ == old(self).next_output(old(tile)@, old(output)@),
    {
        let side: usize = self.id.launch.block.x;
        let tx: usize = self.id.thread_idx.x;
        let ty: usize = self.id.thread_idx.y;
        let n: usize = self.n;
        match self.phase {
            Phase::Load => {
                let x: usize = self.id.x();
                let y: usize = self.id.y();
                if x < n && y < n {
                    proof {
                        lemma_offset_in_bounds(y as int, x as int, n as int, n as int);
                        lemma_offset_in_bounds(ty as int, tx as int, side as int, side as int);
                    }
                    let value: T = input[at(y, x, n)];
                    tile[at(ty, tx, side)] = Some(value);
                }
                self.phase = Phase::Store;
                Signal::Barrier
            },
            Phase::Store => {
                proof {
                    lemma_coordinate_in_reach(
                        self.id.block_idx.y as int,
                        side as int,
                        tx as int,
                        self.id.launch.grid.y as int,
                    );
                    lemma_coordinate_in_reach(
                        self.id.block_idx.x as int,
                        side as int,
                        ty as int,
                        self.id.launch.grid.x as int,
                    );
                }
                let x: usize = self.id.block_idx.y * side + tx;
                let y: usize = self.id.block_idx.x * side + ty;
                if x < n && y < n {
                    proof {
                        lemma_offset_in_bounds(y as int, x as int, n as int, n as int);
                        lemma_offset_in_bounds(tx as int, ty as int, side as int, side as int);
                    }
                    let cell: Option<T> = tile[at(tx, ty, side)];
                    match cell {
                        Some(value) => {
                            output[at(y, x, n)] = value;
                        },
                        None => {},
                    }
                }
                self.phase = Phase::Done;
                Signal::Done
            },
            Phase::Done => Signal::Done,
        }
    }
}

/// The thread at `slot` of a block whose threads all stand at `phase`.
pub open spec fn lockstep(launch: Launch, block_idx: Dim, n: usize, slot: int, phase: Phase) -> TransposeThread {
    TransposeThread { id: thread_at(launch, block_idx, slot), n, phase }
}

/// The phase that follows `phase`.
pub open spec fn phase_after(phase: Phase) -> Phase {
    match phase {
        Phase::Load => Phase::Store,
        Phase::Store | Phase::Done => Phase::Done,
    }
}

/// Number of steps that a thread at `phase` has before it stores.
pub open spec fn steps_left(phase: Phase) -> int {
    match phase {
        Phase::Load => 1,
        Phase::Store | Phase::Done => 0,
    }
}

/// The shared tile once the threads at the first `k` slots of a block have
/// loaded: the slots of threads whose cell lies inside the matrix hold that
/// cell, every other slot is as before.
pub open spec fn loaded_upto<T>(
    launch: Launch,
    block_idx: Dim,
    input: Seq<T>,
    tile: Seq<Option<T>>,
    n: int,
    k: int,
) -> Seq<Option<T>> {
    let side = launch.block.x as int;
    Seq::new(
        tile.len(),
        |s: int|
            {
                let row = block_idx.y * side + row_of(s, side);
                let col = block_idx.x * side + col_of(s, side);
                if s < k && row < n && col < n {
                    Some(input[offset(row, col, n)])
                } else {
                    tile[s]
                }
            },
    )
}

/// Whether the cell at offset `i` of the output is written by block
/// `block_idx`: the block that reads tile `(x, y)` of the input writes tile
/// `(y, x)` of the output.
pub open spec fn in_block(launch: Launch, block_idx: Dim, n: int, i: int) -> bool {
    let side = launch.block.x as int;
    &&& 0 <= i < n * n
    &&& block_idx.x * side <= row_of(i, n) < block_idx.x * side + side
    &&& block_idx.y * side <= col_of(i, n) < block_idx.y * side + side
}

/// The slot, in its block, of the thread that writes the cell at offset `i`.
pub open spec fn slot_of(launch: Launch, block_idx: Dim, n: int, i: int) -> int {
    let side = launch.block.x as int;
    offset(row_of(i, n) - block_idx.x * side, col_of(i, n) - block_idx.y * side, side)
}

/// The output once the threads at the first `k` slots of a block have
/// stored.
pub open spec fn stored_upto<T>(
    launch: Launch,
    block_idx: Dim,
    input: Seq<T>,
    output: Seq<T>,
    n: int,
    k: int,
) -> Seq<T> {
    Seq::new(
        output.len(),
        |i: int|
            if in_block(launch, block_idx, n, i) && slot_of(launch, block_idx, n, i) < k {
                transposed(input, n)[i]
            } else {
                output[i]
            },
    )
}

/// The output once a block has run: the cells of the mirrored tile that lie
/// inside the matrix hold the transpose, every other cell is as before.
pub open spec fn block_output<T>(
    launch: Launch,
    block_idx: Dim,
    input: Seq<T>,
    output: Seq<T>,
    n: int,
) -> Seq<T> {
    Seq::new(
        output.len(),
        |i: int|
            if in_block(launch, block_idx, n, i) {
                transposed(input, n)[i]
            } else {
                output[i]
            },
    )
}

/// The facts that hold of every thread of a block in lockstep: it is well
/// formed, and its cells and slots are those of its place in the block.
pub proof fn lemma_lockstep(launch: Launch, block_idx: Dim, n: usize, slot: int, phase: Phase)
    requires
        launch.wf(),
        launch.tiled(),
        block_idx.x < launch.grid.x,
        block_idx.y < launch.grid.y,
        n * n <= usize::MAX,
        0 <= slot < launch.block.x * launch.block.x,
    ensures
        ({
            let t = lockstep(launch, block_idx, n, slot, phase);
            let side = launch.block.x as int;
            &&& t.wf()
            &&& t.slot() == slot
            &&& 0 <= row_of(slot, side) < side
            &&& 0 <= col_of(slot, side) < side
            &&& t.mirror() == offset(col_of(slot, side), row_of(slot, side), side)
            &&& 0 <= t.mirror() < side * side
            &&& t.read_row() == block_idx.y * side + row_of(slot, side)
            &&& t.read_col() == block_idx.x * side + col_of(slot, side)
            &&& t.write_row() == block_idx.x * side + row_of(slot, side)
            &&& t.write_col() == block_idx.y * side + col_of(slot, side)
            &&& 0 <= t.write_row()
            &&& 0 <= t.write_col()
            &&& 0 <= t.read_row()
            &&& 0 <= t.read_col()
        }),
{
    let side = launch.block.x as int;
    lemma_cell_offset(slot, side);
    lemma_row_in_bounds(slot, side, side);
    lemma_offset_in_bounds(col_of(slot, side), row_of(slot, side), side, side);
    lemma_coordinate_in_reach(
        block_idx.y as int,
        side,
        row_of(slot, side),
        launch.grid.y as int,
    );
    lemma_coordinate_in_reach(
        block_idx.x as int,
        side,
        col_of(slot, side),
        launch.grid.x as int,
    );
}

/// When the thread at `slot` loads after the threads at all lower slots,
/// the shared tile is that of the threads up to and with `slot`.
pub proof fn lemma_load_step<T>(
    launch: Launch,
    block_idx: Dim,
    input: Seq<T>,
    tile: Seq<Option<T>>,
    n: usize,
    slot: int,
)
    requires
        launch.wf(),
        launch.tiled(),
        block_idx.x < launch.grid.x,
        block_idx.y < launch.grid.y,
        n * n <= usize::MAX,
        tile.len() == launch.block.x * launch.block.x,
        0 <= slot < launch.block.x * launch.block.x,
    ensures
        lockstep(launch, block_idx, n, slot, Phase::Load).next_tile(
            input,
            loaded_upto(launch, block_idx, input, tile, n as int, slot),
        ) == loaded_upto(launch, block_idx, input, tile, n as int, slot + 1),
{
    lemma_lockstep(launch, block_idx, n, slot, Phase::Load);
    let t = lockstep(launch, block_idx, n, slot, Phase::Load);
    let before = loaded_upto(launch, block_idx, input, tile, n as int, slot);
    let after = loaded_upto(launch, block_idx, input, tile, n as int, slot + 1);
    assert(t.next_tile(input, before) =~= after);
}

/// In a block, the thread that writes a cell of the matrix is the thread
/// whose slot is the slot of that cell.
pub proof fn lemma_slot_owner(launch: Launch, block_idx: Dim, n: int, slot: int, i: int)
    requires
        launch.tiled(),
        0 <= slot < launch.block.x * launch.block.x,
        in_block(launch, block_idx, n, i),
        slot_of(launch, block_idx, n, i) == slot,
        0 < n,
    ensures
        row_of(i, n) == block_idx.x * launch.block.x + row_of(slot, launch.block.x as int),
        col_of(i, n) == block_idx.y * launch.block.x + col_of(slot, launch.block.x as int),
        i == offset(
            block_idx.x * launch.block.x + row_of(slot, launch.block.x as int),
            block_idx.y * launch.block.x + col_of(slot, launch.block.x as int),
            n,
        ),
{
    let side = launch.block.x as int;
    lemma_cell_offset(slot, side);
    lemma_offset_injective(
        row_of(i, n) - block_idx.x * side,
        col_of(i, n) - block_idx.y * side,
        row_of(slot, side),
        col_of(slot, side),
        side,
    );
    lemma_cell_offset(i, n);
}

/// Once every thread of the block has loaded, the thread at `slot` finds
/// the slot it reads filled, and when it stores after the threads at all
/// lower slots, the output is that of the threads up to and with `slot`.
pub proof fn lemma_store_step<T>(
    launch: Launch,
    block_idx: Dim,
    input: Seq<T>,
    tile: Seq<Option<T>>,
    output: Seq<T>,
    n: usize,
    slot: int,
)
    requires
        launch.wf(),
        launch.tiled(),
        block_idx.x < launch.grid.x,
        block_idx.y < launch.grid.y,
        n * n <= usize::MAX,
        n * n <= output.len(),
        tile.len() == launch.block.x * launch.block.x,
        0 <= slot < launch.block.x * launch.block.x,
    ensures
        ({
            let t = lockstep(launch, block_idx, n, slot, Phase::Store);
            let full = loaded_upto(
                launch,
                block_idx,
                input,
                tile,
                n as int,
                launch.block.x * launch.block.x,
            );
            &&& t.ready(full)
            &&& t.next_output(full, stored_upto(launch, block_idx, input, output, n as int, slot))
                == stored_upto(launch, block_idx, input, output, n as int, slot + 1)
        }),
{
    let side = launch.block.x as int;
    lemma_lockstep(launch, block_idx, n, slot, Phase::Store);
    let t = lockstep(launch, block_idx, n, slot, Phase::Store);
    let full = loaded_upto(launch, block_idx, input, tile, n as int, side * side);
    let before = stored_upto(launch, block_idx, input, output, n as int, slot);
    let after = stored_upto(launch, block_idx, input, output, n as int, slot + 1);
    let row = t.write_row();
    let col = t.write_col();
    lemma_offset_cell(col_of(slot, side), row_of(slot, side), side);
    if t.stores() {
        let p = offset(row, col, n as int);
        lemma_offset_in_bounds(row, col, n as int, n as int);
        lemma_offset_cell(row, col, n as int);
        assert(full[t.mirror()] == Some(input[offset(col, row, n as int)]));
        assert(in_block(launch, block_idx, n as int, p));
        assert(slot_of(launch, block_idx, n as int, p) == slot);
        let value = full[t.mirror()]->0;
        assert forall|i: int| 0 <= i < output.len() implies before.update(p, value)[i] == after[i] by {
            if i != p && in_block(launch, block_idx, n as int, i) && slot_of(
                launch,
                block_idx,
                n as int,
                i,
            ) == slot {
                lemma_slot_owner(launch, block_idx, n as int, slot, i);
            }
        }
        assert(before.update(p, value) =~= after);
    } else {
        assert forall|i: int| 0 <= i < output.len() implies before[i] == after[i] by {
            if in_block(launch, block_idx, n as int, i) && slot_of(launch, block_idx, n as int, i)
                == slot {
                assert(0 < n) by (nonlinear_arith)
                    requires
                        0 <= i < n * n,
                ;
                lemma_slot_owner(launch, block_idx, n as int, slot, i);
                lemma_row_in_bounds(i, n as int, n as int);
                lemma_cell_offset(i, n as int);
            }
        }
        assert(before =~= after);
    }
}

/// A buffer that stands for freshly allocated shared memory. What it holds
/// is left open, so that nothing proved of the kernel leans on it.
fn blank_tile<T>(len: usize) -> (v: Vec<Option<T>>)
    ensures
        v.len() == len,
{
    let mut v: Vec<Option<T>> = Vec::new();
    let mut i: usize = 0;
    while i < len
        invariant
            i <= len,
            v.len() == i,
        decreases len - i,
    {
        v.push(None);
        i = i + 1;
    }
    v
}

/// The threads of block `block_idx` at the start of the kernel, in the order
/// of their slots.
fn spawn(launch: &Launch, block_idx: Dim, n: usize) -> (threads: Vec<TransposeThread>)
    requires
        launch.wf(),
        launch.tiled(),
        block_idx.x < launch.grid.x,
        block_idx.y < launch.grid.y,
        n * n <= usize::MAX,
    ensures
        threads.len() == launch.block.x * launch.block.x,
        forall|j: int|
            0 <= j < threads.len() ==> threads[j] == lockstep(*launch, block_idx, n, j, Phase::Load),
{
    let side: usize = launch.block.x;
    let count: usize = side * side;
    let mut threads: Vec<TransposeThread> = Vec::new();
    let mut k: usize = 0;
    while k < count
        invariant
            launch.wf(),
            launch.tiled(),
            block_idx.x < launch.grid.x,
            block_idx.y < launch.grid.y,
            n * n <= usize::MAX,
            side == launch.block.x,
            count == side * side,
            k <= count,
            threads.len() == k,
            forall|j: int|
                0 <= j < k ==> threads[j] == lockstep(*launch, block_idx, n, j, Phase::Load),
        decreases count - k,
    {
        proof {
            lemma_cell_offset(k as int, side as int);
            lemma_row_in_bounds(k as int, side as int, side as int);
        }
        let id = ThreadId {
            launch: *launch,
            block_idx,
            thread_idx: Dim { x: k % side, y: k / side },
        };
        threads.push(TransposeThread::new(id, n));
        k = k + 1;
    }
    threads
}

/// One block of the kernel: every thread of the block is driven, step by
/// step, from the start of its program to its end. The barrier is released
/// when all threads of the block have arrived at it, which they do in the
/// same step; no thread reads a slot of the shared tile before that.
pub fn transpose_block<T: Copy>(
    launch: &Launch,
    block_idx: Dim,
    input: &[T],
    output: &mut [T],
    n: usize,
)
    requires
        launch.wf(),
        launch.tiled(),
        block_idx.x < launch.grid.x,
        block_idx.y < launch.grid.y,
        n * n <= input.len(),
        n * n <= old(output).len(),
    ensures
        final(output)@ == block_output(*launch, block_idx, input@, old(output)@, n as int),
{
    let side: usize = launch.block.x;
    let count: usize = side * side;
    let mut tile: Vec<Option<T>> = blank_tile(count);
    let mut threads: Vec<TransposeThread> = spawn(launch, block_idx, n);
    let ghost out0 = output@;
    let ghost tile0 = tile@;
    let ghost mut phase = Phase::Load;
    proof {
        assert(side * side >= 1) by (nonlinear_arith)
            requires
                side >= 1,
        ;
    }
    loop
        invariant_except_break
            launch.wf(),
            launch.tiled(),
            block_idx.x < launch.grid.x,
            block_idx.y < launch.grid.y,
            n * n <= input.len(),
            n * n <= out0.len(),
            side == launch.block.x,
            count == side * side,
            count >= 1,
            threads.len() == count,
            tile.len() == count,
            tile0.len() == count,
            forall|j: int|
                0 <= j < count ==> threads[j] == lockstep(*launch, block_idx, n, j, phase),
            match phase {
                Phase::Load => tile@ == tile0,
                Phase::Store => tile@ == loaded_upto(
                    *launch,
                    block_idx,
                    input@,
                    tile0,
                    n as int,
                    count as int,
                ),
                Phase::Done => false,
            },
            output@ == out0,
        ensures
            output@ == block_output(*launch, block_idx, input@, out0, n as int),
        decreases steps_left(phase),
    {
        let mut signal = Signal::Done;
        let mut k: usize = 0;
        proof {
            if phase is Load {
                assert(tile@ =~= loaded_upto(*launch, block_idx, input@, tile0, n as int, 0));
            } else {
                assert(output@ =~= stored_upto(*launch, block_idx, input@, out0, n as int, 0));
            }
        }
        while k < count
            invariant
                launch.wf(),
                launch.tiled(),
                block_idx.x < launch.grid.x,
                block_idx.y < launch.grid.y,
                n * n <= input.len(),
                n * n <= out0.len(),
                side == launch.block.x,
                count == side * side,
                count >= 1,
                k <= count,
                threads.len() == count,
                tile.len() == count,
                tile0.len() == count,
                output.len() == out0.len(),
                forall|j: int|
                    0 <= j < k ==> threads[j] == lockstep(
                        *launch,
                        block_idx,
                        n,
                        j,
                        phase_after(phase),
                    ),
                forall|j: int|
                    k <= j < count ==> threads[j] == lockstep(*launch, block_idx, n, j, phase),
                k > 0 ==> signal == lockstep(*launch, block_idx, n, 0, phase).signal(),
                match phase {
                    Phase::Load => {
                        &&& output@ == out0
                        &&& tile@ == loaded_upto(
                            *launch,
                            block_idx,
                            input@,
                            tile0,
                            n as int,
                            k as int,
                        )
                    },
                    Phase::Store => {
                        &&& tile@ == loaded_upto(
                            *launch,
                            block_idx,
                            input@,
                            tile0,
                            n as int,
                            count as int,
                        )
                        &&& output@ == stored_upto(
                            *launch,
                            block_idx,
                            input@,
                            out0,
                            n as int,
                            k as int,
                        )
                    },
                    Phase::Done => false,
                },
            decreases count - k,
        {
            proof {
                lemma_lockstep(*launch, block_idx, n, k as int, phase);
                match phase {
                    Phase::Load => {
                        lemma_load_step(*launch, block_idx, input@, tile0, n, k as int);
                    },
                    Phase::Store => {
                        lemma_store_step(*launch, block_idx, input@, tile0, out0, n, k as int);
                    },
                    Phase::Done => {},
                }
            }
            signal = threads[k].step(input, &mut tile, output);
            k = k + 1;
        }
        proof {
            if phase is Store {
                assert forall|i: int| 0 <= i < out0.len() implies output@[i] == block_output(
                    *launch,
                    block_idx,
                    input@,
                    out0,
                    n as int,
                )[i] by {
                    if in_block(*launch, block_idx, n as int, i) {
                        lemma_offset_in_bounds(
                            row_of(i, n as int) - block_idx.x * side,
                            col_of(i, n as int) - block_idx.y * side,
                            side as int,
                            side as int,
                        );
                    }
                }
                assert(output@ =~= block_output(*launch, block_idx, input@, out0, n as int));
            }
            phase = phase_after(phase);
        }
        match signal {
            Signal::Done => {
                break ;
            },
            Signal::Barrier => {},
        }
    }
}

/// Whether the cell at offset `i` of the output is written by a block that
/// comes before block `(bx, by)` when the blocks run row by row.
pub open spec fn in_earlier_block(launch: Launch, n: int, by: int, bx: int, i: int) -> bool {
    let side = launch.block.x as int;
    &&& 0 <= i < n * n
    &&& row_of(i, n) < launch.grid.x * side
    &&& (col_of(i, n) < by * side || (col_of(i, n) < by * side + side && row_of(i, n) < bx
        * side))
}

/// The output once every block before block `(bx, by)` has run.
pub open spec fn transpose_upto<T>(
    launch: Launch,
    input: Seq<T>,
    output: Seq<T>,
    n: int,
    by: int,
    bx: int,
) -> Seq<T> {
    Seq::new(
        output.len(),
        |i: int|
            if in_earlier_block(launch, n, by, bx, i) {
                transposed(input, n)[i]
            } else {
                output[i]
            },
    )
}

/// Whether the cell at offset `i` of the output is written by a thread of
/// the launch: the thread that reads cell `(y, x)` writes cell `(x, y)`.
pub open spec fn in_reach(launch: Launch, n: int, i: int) -> bool {
    &&& 0 <= i < n * n
    &&& row_of(i, n) < launch.reach_x()
    &&& col_of(i, n) < launch.reach_y()
}

/// The output of the kernel: every cell of the matrix that a thread of the
/// launch writes holds the transpose, every other cell of the buffer is as
/// before.
pub open spec fn transpose_output<T>(launch: Launch, input: Seq<T>, output: Seq<T>, n: int) -> Seq<T> {
    Seq::new(
        output.len(),
        |i: int|
            if in_reach(launch, n, i) {
                transposed(input, n)[i]
            } else {
                output[i]
            },
    )
}

/// The tiled transpose of an `n` by `n` matrix, launched on a grid of
/// square blocks.
pub fn transpose<T: Copy>(launch: &Launch, in_mat: &[T], out_mat: &mut [T], n: usize)
    requires
        launch.wf(),
        launch.tiled(),
        n * n <= in_mat.len(),
        n * n <= old(out_mat).len(),
    ensures
        final(out_mat)@ == transpose_output(*launch, in_mat@, old(out_mat)@, n as int),
{
    let ghost out0 = out_mat@;
    let ghost side = launch.block.x as int;
    let mut by: usize = 0;
    proof {
        assert(0 * side == 0);
        assert forall|i: int| 0 <= i < n * n implies 0 <= col_of(i, n as int) && 0 <= row_of(
            i,
            n as int,
        ) by {
            lemma_cell_offset(i, n as int);
        }
        assert(out_mat@ =~= transpose_upto(*launch, in_mat@, out0, n as int, 0, 0));
    }
    while by < launch.grid.y
        invariant
            launch.wf(),
            launch.tiled(),
            n * n <= in_mat.len(),
            n * n <= out0.len(),
            side == launch.block.x,
            by <= launch.grid.y,
            forall|i: int|
                0 <= i < n * n ==> 0 <= #[trigger] col_of(i, n as int) && 0 <= row_of(i, n as int),
            out_mat@ == transpose_upto(*launch, in_mat@, out0, n as int, by as int, 0),
        decreases launch.grid.y - by,
    {
        let mut bx: usize = 0;
        while bx < launch.grid.x
            invariant
                launch.wf(),
                launch.tiled(),
                n * n <= in_mat.len(),
                n * n <= out0.len(),
                side == launch.block.x,
                by < launch.grid.y,
                bx <= launch.grid.x,
                out_mat@ == transpose_upto(*launch, in_mat@, out0, n as int, by as int, bx as int),
            decreases launch.grid.x - bx,
        {
            transpose_block(launch, Dim { x: bx, y: by }, in_mat, out_mat, n);
            proof {
                assert((bx + 1) * side == bx * side + side) by (nonlinear_arith);
                assert((bx + 1) * side <= launch.grid.x * side) by (nonlinear_arith)
                    requires
                        bx + 1 <= launch.grid.x,
                        0 <= side,
                ;
                assert(out_mat@ =~= transpose_upto(
                    *launch,
                    in_mat@,
                    out0,
                    n as int,
                    by as int,
                    bx as int + 1,
                ));
            }
            bx = bx + 1;
        }
        proof {
            assert((by + 1) * side == by * side + side) by (nonlinear_arith);
            assert(0 * side == 0);
            assert(out_mat@ =~= transpose_upto(*launch, in_mat@, out0, n as int, by as int + 1, 0));
        }
        by = by + 1;
    }
    proof {
        assert(launch.grid.x * side > 0 <==> launch.grid.x > 0) by (nonlinear_arith)
            requires
                side >= 1,
                launch.grid.x >= 0,
        ;
        assert(launch.grid.y * side > 0 <==> launch.grid.y > 0) by (nonlinear_arith)
            requires
                side >= 1,
                launch.grid.y >= 0,
        ;
        assert(0 * side == 0);
        assert(out_mat@ =~= transpose_output(*launch, in_mat@, out0, n as int));
    }
}

/// Under a launch that covers the matrix, the output holds the transpose in
/// its first `n * n` cells and is unchanged behind them, whatever the side
/// of the tiles.
pub proof fn lemma_transpose_covering<T>(launch: Launch, input: Seq<T>, output: Seq<T>, n: int)
    requires
        0 <= n,
        n * n <= output.len(),
        launch.covers_x(n),
        launch.covers_y(n),
    ensures
        transpose_output(launch, input, output, n) == transposed(input, n) + output.subrange(
            n * n,
            output.len() as int,
        ),
{
    let out = transpose_output(launch, input, output, n);
    let want = transposed(input, n) + output.subrange(n * n, output.len() as int);
    assert(out.len() == want.len());
    assert forall|i: int| 0 <= i < out.len() implies out[i] == want[i] by {
        if i < n * n {
            assert(0 < n) by (nonlinear_arith)
                requires
                    0 <= i < n * n,
                    0 <= n,
            ;
            lemma_cell_offset(i, n);
            lemma_row_in_bounds(i, n, n);
        }
    }
    assert(out =~= want);
}

/// Cell `(col, row)` of the output of a covering launch is cell `(row, col)`
/// of the input.
pub proof fn lemma_transpose_cell<T>(launch: Launch, input: Seq<T>, output: Seq<T>, n: int, row: int, col: int)
    requires
        0 <= row < n,
        0 <= col < n,
        n * n <= output.len(),
        launch.covers_x(n),
        launch.covers_y(n),
    ensures
        0 <= offset(col, row, n) < output.len(),
        transpose_output(launch, input, output, n)[offset(col, row, n)] == input[offset(row, col, n)],
{
    lemma_offset_in_bounds(col, row, n, n);
    lemma_offset_cell(col, row, n);
}

/// The kernel launched on its own output gives the matrix back.
pub proof fn lemma_transpose_twice<T>(launch: Launch, m: Seq<T>, first: Seq<T>, second: Seq<T>, n: int)
    requires
        0 <= n,
        m.len() == n * n,
        first.len() == n * n,
        second.len() == n * n,
        launch.covers_x(n),
        launch.covers_y(n),
    ensures
        transpose_output(launch, transpose_output(launch, m, first, n), second, n) == m,
{
    lemma_transpose_covering(launch, m, first, n);
    let once = transpose_output(launch, m, first, n);
    assert(once =~= transposed(m, n));
    lemma_transpose_covering(launch, once, second, n);
    crate::linalg::lemma_transposed_involutive(m, n);
    assert(transpose_output(launch, once, second, n) =~= transposed(once, n));
}

/// Whatever the launch, the kernel keeps the length of the output and
/// leaves every element behind the matrix as it was.
pub proof fn lemma_transpose_tail<T>(launch: Launch, input: Seq<T>, output: Seq<T>, n: int, i: int)
    requires
        0 <= n * n <= i < output.len(),
    ensures
        transpose_output(launch, input, output, n).len() == output.len(),
        transpose_output(launch, input, output, n)[i] == output[i],
{
}

/// No barrier divergence: two threads at the same phase hand out the same
/// signal and stand at the same phase again after their step, wherever they
/// lie in the block and whether or not their cells lie inside the matrix.
pub proof fn lemma_transpose_no_divergence(s: TransposeThread, t: TransposeThread)
    requires
        s.phase == t.phase,
    ensures
        s.signal() == t.signal(),
        s.next().phase == t.next().phase,
{
}

/// No write races: two different threads of one block fill different slots
/// of the shared tile, and two different threads of one launch that store
/// write different cells of the output.
pub proof fn lemma_transpose_owners_differ(s: TransposeThread, t: TransposeThread)
    requires
        s.wf(),
        t.wf(),
        s.id.launch == t.id.launch,
        s.n == t.n,
        s.id != t.id,
    ensures
        s.id.block_idx == t.id.block_idx ==> s.slot() != t.slot(),
        s.stores() && t.stores() ==> offset(s.write_row(), s.write_col(), s.n as int) != offset(
            t.write_row(),
            t.write_col(),
            t.n as int,
        ),
{
    let side = s.tile();
    if s.id.block_idx == t.id.block_idx && s.slot() == t.slot() {
        lemma_offset_injective(
            s.id.thread_idx.y as int,
            s.id.thread_idx.x as int,
            t.id.thread_idx.y as int,
            t.id.thread_idx.x as int,
            side,
        );
    }
    if s.stores() && t.stores() && offset(s.write_row(), s.write_col(), s.n as int) == offset(
        t.write_row(),
        t.write_col(),
        t.n as int,
    ) {
        lemma_coordinate_in_reach(
            s.id.block_idx.y as int,
            side,
            s.id.thread_idx.x as int,
            s.id.launch.grid.y as int,
        );
        lemma_coordinate_in_reach(
            t.id.block_idx.y as int,
            side,
            t.id.thread_idx.x as int,
            t.id.launch.grid.y as int,
        );
        lemma_offset_injective(
            s.write_row(),
            s.write_col(),
            t.write_row(),
            t.write_col(),
            s.n as int,
        );
        lemma_offset_injective(
            s.id.block_idx.x as int,
            s.id.thread_idx.y as int,
            t.id.block_idx.x as int,
            t.id.thread_idx.y as int,
            side,
        );
        lemma_offset_injective(
            s.id.block_idx.y as int,
            s.id.thread_idx.x as int,
            t.id.block_idx.y as int,
            t.id.thread_idx.x as int,
            side,
        );
    }
}

/// Within one phase the order of the threads of a block does not matter:
/// the steps of two threads with different slots and different cells leave
/// the same shared tile and the same output in either order, and a storing
/// thread leaves the shared tile as it was.
pub proof fn lemma_transpose_steps_commute<T>(
    s: TransposeThread,
    t: TransposeThread,
    input: Seq<T>,
    tile: Seq<Option<T>>,
    output: Seq<T>,
)
    requires
        s.phase == t.phase,
        s.slot() != t.slot(),
        0 <= s.slot() < tile.len(),
        0 <= t.slot() < tile.len(),
        s.stores() ==> 0 <= offset(s.write_row(), s.write_col(), s.n as int) < output.len(),
        t.stores() ==> 0 <= offset(t.write_row(), t.write_col(), t.n as int) < output.len(),
        s.stores() && t.stores() ==> offset(s.write_row(), s.write_col(), s.n as int) != offset(
            t.write_row(),
            t.write_col(),
            t.n as int,
        ),
    ensures
        t.next_tile(input, s.next_tile(input, tile)) == s.next_tile(input, t.next_tile(input, tile)),
        t.next_output(tile, s.next_output(tile, output)) == s.next_output(
            tile,
            t.next_output(tile, output),
        ),
        s.phase is Store ==> s.next_tile(input, tile) == tile,
{
    assert(t.next_tile(input, s.next_tile(input, tile)) =~= s.next_tile(
        input,
        t.next_tile(input, tile),
    ));
    assert(t.next_output(tile, s.next_output(tile, output)) =~= s.next_output(
        tile,
        t.next_output(tile, output),
    ));
}

} // verus!
