//! Launch geometry and thread identity.

use vstd::prelude::*;
use vstd::arithmetic::div_mod::lemma_fundamental_div_mod;
use vstd::arithmetic::div_mod::lemma_fundamental_div_mod_converse;
use vstd::arithmetic::div_mod::lemma_mod_pos_bound;
use crate::index::col_of;
use crate::index::global_coordinate;
use crate::index::global_index;
use crate::index::lemma_offset_injective;
use crate::index::row_of;

verus! {

/// Side of the shared tile that the cooperative kernels are built for.
pub const TILE: usize = 16;

/// An extent, or a position, along the two axes of a grid or of a block.
#[derive(Clone, Copy, Debug)]
pub struct Dim {
    pub x: usize,
    pub y: usize,
}

/// How many blocks a grid has and how many threads a block has, per axis.
#[derive(Clone, Copy, Debug)]
pub struct Launch {
    pub grid: Dim,
    pub block: Dim,
}

/// The identity of one thread: where its block lies in the grid and where it
/// lies in its block.
#[derive(Clone, Copy, Debug)]
pub struct ThreadId {
    pub launch: Launch,
    pub block_idx: Dim,
    pub thread_idx: Dim,
}

/// What a thread asks of its block when a step of its program ends.
#[derive(Clone, Copy, Debug)]
pub enum Signal {
    /// The thread waits until every thread of its block has arrived here.
    Barrier,
    /// The thread's program has ended.
    Done,
}

/// The least number of pieces of size `d` that together hold `n`.
pub open spec fn ceil_div(n: int, d: int) -> int {
    (n + d - 1) / d
}

/// `ceil_div(n, d)` pieces hold `n`, and one piece fewer does not.
pub proof fn lemma_ceil_div(n: int, d: int)
    requires
        0 <= n,
        0 < d,
    ensures
        0 <= ceil_div(n, d),
        n <= ceil_div(n, d) * d < n + d,
        n == 0 <==> ceil_div(n, d) == 0,
        ceil_div(n, d) <= n,
{
    let x = n + d - 1;
    lemma_fundamental_div_mod(x, d);
    lemma_mod_pos_bound(x, d);
    let q = x / d;
    let r = x % d;
    assert(d * q == q * d) by (nonlinear_arith);
    assert(0 <= q) by (nonlinear_arith)
        requires
            x == q * d + r,
            0 <= x,
            0 <= r < d,
    ;
    assert(q <= n) by (nonlinear_arith)
        requires
            q * d < n + d,
            0 < d,
            0 <= n,
    ;
    if q == 0 {
        assert(q * d == 0) by (nonlinear_arith)
            requires
                q == 0,
        ;
    } else {
        assert(q * d >= d) by (nonlinear_arith)
            requires
                q >= 1,
                d > 0,
        ;
    }
}

/// The number of blocks of `tile` threads that cover `n` indices.
pub fn blocks_for(n: usize, tile: usize) -> (r: usize)
    requires
        tile >= 1,
    ensures
        r == ceil_div(n as int, tile as int),
{
    if n == 0 {
        proof {
            lemma_fundamental_div_mod_converse(tile as int - 1, tile as int, 0, tile as int - 1);
        }
        0
    } else {
        let q: usize = (n - 1) / tile;
        proof {
            let d = tile as int;
            let x = n as int - 1;
            lemma_fundamental_div_mod(x, d);
            lemma_mod_pos_bound(x, d);
            assert(d * (x / d) == (x / d) * d) by (nonlinear_arith);
            assert((x / d + 1) * d == (x / d) * d + d) by (nonlinear_arith);
            lemma_fundamental_div_mod_converse(x + d, d, x / d + 1, x % d);
            assert(x / d <= x) by (nonlinear_arith)
                requires
                    x == (x / d) * d + x % d,
                    0 <= x % d,
                    0 <= x,
                    1 <= d,
            ;
        }
        q + 1
    }
}

impl Launch {
    /// The thread count of each axis fits the machine word.
    pub open spec fn wf(&self) -> bool {
        &&& self.grid.x * self.block.x <= usize::MAX
        &&& self.grid.y * self.block.y <= usize::MAX
    }

    /// Number of threads along the x axis.
    pub open spec fn threads_x(&self) -> int {
        self.grid.x * self.block.x
    }

    /// Number of threads along the y axis.
    pub open spec fn threads_y(&self) -> int {
        self.grid.y * self.block.y
    }

    /// Number of x coordinates at which a thread runs: none where the launch
    /// has no thread at all.
    pub open spec fn reach_x(&self) -> int {
        if self.threads_y() > 0 {
            self.threads_x()
        } else {
            0
        }
    }

    /// Number of y coordinates at which a thread runs.
    pub open spec fn reach_y(&self) -> int {
        if self.threads_x() > 0 {
            self.threads_y()
        } else {
            0
        }
    }

    /// The block is a square of side at least one whose thread count fits
    /// the machine word, the shape that the cooperative kernels ask for: one
    /// thread for each slot of a shared tile.
    pub open spec fn tiled(&self) -> bool {
        &&& self.block.x == self.block.y
        &&& self.block.x >= 1
        &&& self.block.x * self.block.y <= usize::MAX
    }

    /// Every index below `n` is the x coordinate of some thread.
    pub open spec fn covers_x(&self, n: int) -> bool {
        n <= self.reach_x()
    }

    /// Every index below `n` is the y coordinate of some thread.
    pub open spec fn covers_y(&self, n: int) -> bool {
        n <= self.reach_y()
    }

    /// Whether every index below `n` is the x coordinate of some thread, as
    /// a kernel with one thread per element needs.
    pub fn covers_vector(&self, n: usize) -> (r: bool)
        requires
            self.wf(),
        ensures
            r == self.covers_x(n as int),
    {
        let across: usize = self.grid.x * self.block.x;
        let down: usize = self.grid.y * self.block.y;
        n == 0 || (down > 0 && n <= across)
    }

    /// Whether every cell of an `n` by `n` matrix is the place of some
    /// thread, as a kernel with one thread per cell needs.
    pub fn covers_matrix(&self, n: usize) -> (r: bool)
        requires
            self.wf(),
        ensures
            r == (self.covers_x(n as int) && self.covers_y(n as int)),
    {
        let across: usize = self.grid.x * self.block.x;
        let down: usize = self.grid.y * self.block.y;
        n <= across && n <= down
    }

    /// A row of blocks of `block` threads each, just long enough for `n`
    /// indices.
    pub fn linear(n: usize, block: usize) -> (l: Launch)
        requires
            block >= 1,
            n + block - 1 <= usize::MAX,
        ensures
            l.wf(),
            l.grid.x == ceil_div(n as int, block as int),
            l.grid.y == 1,
            l.block.x == block,
            l.block.y == 1,
            l.covers_x(n as int),
    {
        let blocks: usize = blocks_for(n, block);
        proof {
            lemma_ceil_div(n as int, block as int);
        }
        Launch { grid: Dim { x: blocks, y: 1 }, block: Dim { x: block, y: 1 } }
    }

    /// A square of blocks of `tile` by `tile` threads each, just large enough
    /// for an `n` by `n` matrix.
    pub fn square(n: usize, tile: usize) -> (l: Launch)
        requires
            tile >= 1,
            tile * tile <= usize::MAX,
            n + tile - 1 <= usize::MAX,
        ensures
            l.wf(),
            l.tiled(),
            l.grid.x == ceil_div(n as int, tile as int),
            l.grid.y == ceil_div(n as int, tile as int),
            l.block.x == tile,
            l.block.y == tile,
            l.covers_x(n as int),
            l.covers_y(n as int),
    {
        let blocks: usize = blocks_for(n, tile);
        proof {
            lemma_ceil_div(n as int, tile as int);
        }
        Launch { grid: Dim { x: blocks, y: blocks }, block: Dim { x: tile, y: tile } }
    }
}

impl ThreadId {
    /// The thread lies inside its block and its block inside the grid.
    pub open spec fn wf(&self) -> bool {
        &&& self.launch.wf()
        &&& self.block_idx.x < self.launch.grid.x
        &&& self.block_idx.y < self.launch.grid.y
        &&& self.thread_idx.x < self.launch.block.x
        &&& self.thread_idx.y < self.launch.block.y
    }

    /// Global x coordinate of the thread.
    pub open spec fn gx(&self) -> int {
        global_coordinate(
            self.block_idx.x as int,
            self.launch.block.x as int,
            self.thread_idx.x as int,
        )
    }

    /// Global y coordinate of the thread.
    pub open spec fn gy(&self) -> int {
        global_coordinate(
            self.block_idx.y as int,
            self.launch.block.y as int,
            self.thread_idx.y as int,
        )
    }

    /// The global coordinates of a thread lie below the thread counts.
    pub proof fn lemma_in_reach(&self)
        requires
            self.wf(),
        ensures
            0 <= self.gx() < self.launch.reach_x(),
            0 <= self.gy() < self.launch.reach_y(),
    {
        lemma_coordinate_in_reach(
            self.block_idx.x as int,
            self.launch.block.x as int,
            self.thread_idx.x as int,
            self.launch.grid.x as int,
        );
        lemma_coordinate_in_reach(
            self.block_idx.y as int,
            self.launch.block.y as int,
            self.thread_idx.y as int,
            self.launch.grid.y as int,
        );
    }

    /// Global x coordinate of the thread.
    pub fn x(&self) -> (r: usize)
        requires
            self.wf(),
        ensures
            r == self.gx(),
    {
        proof {
            self.lemma_in_reach();
        }
        global_index(self.block_idx.x, self.launch.block.x, self.thread_idx.x)
    }

    /// Global y coordinate of the thread.
    pub fn y(&self) -> (r: usize)
        requires
            self.wf(),
        ensures
            r == self.gy(),
    {
        proof {
            self.lemma_in_reach();
        }
        global_index(self.block_idx.y, self.launch.block.y, self.thread_idx.y)
    }
}

/// A thread of a block of the grid has its global coordinate below the
/// number of threads along that axis.
pub proof fn lemma_coordinate_in_reach(block_idx: int, block_dim: int, thread_idx: int, grid_dim: int)
    requires
        0 <= block_idx < grid_dim,
        0 <= thread_idx < block_dim,
    ensures
        0 <= global_coordinate(block_idx, block_dim, thread_idx) < grid_dim * block_dim,
        0 <= block_idx * block_dim,
        block_idx * block_dim + block_dim <= grid_dim * block_dim,
{
    assert(0 <= block_idx * block_dim && block_idx * block_dim + block_dim <= grid_dim * block_dim)
        by (nonlinear_arith)
        requires
            0 <= block_idx < grid_dim,
            0 < block_dim,
    ;
}

/// The identity of the thread that owns `slot` of the shared tile of block
/// `block_idx`: the threads of a square block are numbered row by row.
pub open spec fn thread_at(launch: Launch, block_idx: Dim, slot: int) -> ThreadId {
    ThreadId {
        launch,
        block_idx,
        thread_idx: Dim {
            x: col_of(slot, launch.block.x as int) as usize,
            y: row_of(slot, launch.block.x as int) as usize,
        },
    }
}

/// Two threads of one launch with the same global coordinates are the same
/// thread.
pub proof fn lemma_coordinates_identify(s: ThreadId, t: ThreadId)
    requires
        s.wf(),
        t.wf(),
        s.launch == t.launch,
        s.gx() == t.gx(),
        s.gy() == t.gy(),
    ensures
        s == t,
{
    lemma_offset_injective(
        s.block_idx.x as int,
        s.thread_idx.x as int,
        t.block_idx.x as int,
        t.thread_idx.x as int,
        s.launch.block.x as int,
    );
    lemma_offset_injective(
        s.block_idx.y as int,
        s.thread_idx.y as int,
        t.block_idx.y as int,
        t.thread_idx.y as int,
        s.launch.block.y as int,
    );
}

} // verus!
