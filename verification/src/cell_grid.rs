//! A grid of cells that can be cut into non-touching 60 x 60 chunks, each a
//! 30 x 30 block with a 15-cell ring around it, so that chunks can be updated
//! independently of each other.

use vstd::prelude::*;
use crate::particle::Particle;
use crate::sandbox::{SANDBOX_HEIGHT, SANDBOX_WIDTH, at, put, in_grid, n_cells, lemma_cell_index};
use crate::heap_array::create_cells_array;
use crate::rng::shuffle_four;

verus! {

/// The side of a chunk, ring included.
pub const CHUNK_SIZE: usize = 60;

/// A grid of cells, column by column as in the sandbox.
pub struct CellGrid {
    pub cells: Vec<Option<Particle>>,
}

/// A cell of a chunk: outside the grid, or a copy of a grid cell.
#[derive(Clone, Copy, PartialEq, Eq, Structural, Debug)]
pub enum ChunkCell {
    OutOfBounds,
    InBounds(Option<Particle>),
}

/// A 60 x 60 window on a grid whose top-left corner is at `(origin_x,
/// origin_y)` (possibly off the grid), column by column: which of its cells
/// lie on the grid, and the copies of those cells.
pub struct Chunk {
    pub origin_x: isize,
    pub origin_y: isize,
    pub in_bounds: Vec<bool>,
    pub cells: Vec<Option<Particle>>,
}

/// Cell `(x, y)` of a chunk.
pub open spec fn chunk_at(c: Chunk, x: int, y: int) -> ChunkCell {
    let i = x * CHUNK_SIZE + y;
    if c.in_bounds@[i] { ChunkCell::InBounds(c.cells@[i]) } else { ChunkCell::OutOfBounds }
}

/// Whether `(x, y)` is a position within a chunk.
pub open spec fn in_chunk(x: int, y: int) -> bool {
    0 <= x < CHUNK_SIZE && 0 <= y < CHUNK_SIZE
}

/// A well-formed chunk: 60 x 60 cells.
pub open spec fn chunk_ok(c: Chunk) -> bool {
    &&& c.cells@.len() == CHUNK_SIZE * CHUNK_SIZE
    &&& c.in_bounds@.len() == CHUNK_SIZE * CHUNK_SIZE
}

/// `c` is the window on `g` with its corner at `(ox, oy)`.
pub open spec fn window_of(g: Seq<Option<Particle>>, ox: int, oy: int, c: Chunk) -> bool {
    &&& chunk_ok(c)
    &&& c.origin_x == ox
    &&& c.origin_y == oy
    &&& forall|x: int, y: int| in_chunk(x, y) ==> #[trigger] chunk_at(c, x, y) == (
            if in_grid(ox + x, oy + y) { ChunkCell::InBounds(at(g, ox + x, oy + y)) } else { ChunkCell::OutOfBounds })
}

/// The first corner coordinate of a row or column of chunks: one chunk in
/// (15) when offset, else half a ring before the grid (-15).
pub open spec fn chunk_start(offset_by_1: bool) -> int {
    if offset_by_1 { 15 } else { -15 }
}

/// How many chunks fit along an axis of `len` cells from `start`: corners at
/// `start`, `start + 60`, ... up to `len - 45`.
pub open spec fn chunk_count(start: int, len: int) -> int {
    (len - 45 - start) / 60 + 1
}

/// Slot `(x, y)` of a window being built on `g` with corner `(ox, oy)`.
pub open spec fn slot_ok(bounds: Seq<bool>, cells: Seq<Option<Particle>>, g: Seq<Option<Particle>>, ox: int, oy: int, x: int, y: int) -> bool {
    &&& bounds[x * CHUNK_SIZE + y] == in_grid(ox + x, oy + y)
    &&& in_grid(ox + x, oy + y) ==> cells[x * CHUNK_SIZE + y] == at(g, ox + x, oy + y)
}

impl CellGrid {
    /// An empty grid.
    pub fn new() -> (grid: CellGrid)
        ensures
            grid.cells@ == Seq::new(n_cells() as nat, |i: int| None::<Particle>),
    {
        CellGrid { cells: create_cells_array(None) }
    }

    /// A picture of four bytes per cell, every byte `initial_value`.
    pub fn create_background_array(initial_value: u8) -> (bytes: Vec<u8>)
        ensures
            bytes@ == Seq::new((4 * n_cells()) as nat, |i: int| initial_value),
    {
        let n: usize = SANDBOX_HEIGHT * SANDBOX_WIDTH * 4;
        let mut data: Vec<u8> = Vec::with_capacity(n);
        let mut i: usize = 0;
        while i < n
            invariant
                n == 4 * n_cells(),
                i <= n,
                data@ == Seq::new(i as nat, |j: int| initial_value),
            decreases n - i,
        {
            data.push(initial_value);
            i = i + 1;
        }
        data
    }

    /// The content of cell `(x, y)`.
    pub fn get(&self, x: usize, y: usize) -> (c: Option<Particle>)
        requires
            self.cells@.len() == n_cells(),
            in_grid(x as int, y as int),
        ensures
            c == at(self.cells@, x as int, y as int),
    {
        self.cells[x * SANDBOX_HEIGHT + y]
    }

    /// Sets cell `(x, y)` to `c`.
    pub fn set(&mut self, x: usize, y: usize, c: Option<Particle>)
        requires
            old(self).cells@.len() == n_cells(),
            in_grid(x as int, y as int),
        ensures
            final(self).cells@ == put(old(self).cells@, x as int, y as int, c),
    {
        self.cells.set(x * SANDBOX_HEIGHT + y, c);
    }

    /// The window on this grid with its corner at `(ox, oy)`.
    pub fn window(&self, ox: isize, oy: isize) -> (c: Chunk)
        requires
            self.cells@.len() == n_cells(),
            -60 <= ox <= 1000,
            -60 <= oy <= 1000,
        ensures
            window_of(self.cells@, ox as int, oy as int, c),
    {
        let mut in_bounds: Vec<bool> = Vec::with_capacity(CHUNK_SIZE * CHUNK_SIZE);
        let mut cells: Vec<Option<Particle>> = Vec::with_capacity(CHUNK_SIZE * CHUNK_SIZE);
        let mut x_offset: usize = 0;
        while x_offset < CHUNK_SIZE
            invariant
                x_offset <= CHUNK_SIZE,
                self.cells@.len() == n_cells(),
                -60 <= ox <= 1000,
                -60 <= oy <= 1000,
                cells@.len() == x_offset * CHUNK_SIZE,
                in_bounds@.len() == x_offset * CHUNK_SIZE,
                forall|x: int, y: int| 0 <= x < x_offset && 0 <= y < CHUNK_SIZE ==>
                    #[trigger] slot_ok(in_bounds@, cells@, self.cells@, ox as int, oy as int, x, y),
            decreases CHUNK_SIZE - x_offset,
        {
            let mut y_offset: usize = 0;
            while y_offset < CHUNK_SIZE
                invariant
                    x_offset < CHUNK_SIZE,
                    y_offset <= CHUNK_SIZE,
                    self.cells@.len() == n_cells(),
                    -60 <= ox <= 1000,
                    -60 <= oy <= 1000,
                    cells@.len() == x_offset * CHUNK_SIZE + y_offset,
                    in_bounds@.len() == x_offset * CHUNK_SIZE + y_offset,
                    forall|x: int, y: int| ((0 <= x < x_offset && 0 <= y < CHUNK_SIZE) || (x == x_offset && 0 <= y < y_offset)) ==>
                        #[trigger] slot_ok(in_bounds@, cells@, self.cells@, ox as int, oy as int, x, y),
                decreases CHUNK_SIZE - y_offset,
            {
                let x = ox + x_offset as isize;
                let y = oy + y_offset as isize;
                let ghost before_b = in_bounds@;
                let ghost before_c = cells@;
                if 0 <= x && x < SANDBOX_WIDTH as isize && 0 <= y && y < SANDBOX_HEIGHT as isize {
                    in_bounds.push(true);
                    cells.push(self.get(x as usize, y as usize));
                } else {
                    in_bounds.push(false);
                    cells.push(None);
                }
                proof {
                    assert forall|px: int, py: int| ((0 <= px < x_offset && 0 <= py < CHUNK_SIZE) || (px == x_offset && 0 <= py < y_offset + 1)) implies
                        #[trigger] slot_ok(in_bounds@, cells@, self.cells@, ox as int, oy as int, px, py) by {
                        if !(px == x_offset && py == y_offset) {
                            assert(slot_ok(before_b, before_c, self.cells@, ox as int, oy as int, px, py));
                            assert(px * CHUNK_SIZE + py < before_b.len());
                            assert(in_bounds@[px * CHUNK_SIZE + py] == before_b[px * CHUNK_SIZE + py]);
                            assert(cells@[px * CHUNK_SIZE + py] == before_c[px * CHUNK_SIZE + py]);
                        }
                    }
                }
                y_offset = y_offset + 1;
            }
            x_offset = x_offset + 1;
        }
        let c = Chunk { origin_x: ox, origin_y: oy, in_bounds, cells };
        proof {
            assert forall|x: int, y: int| in_chunk(x, y) implies #[trigger] chunk_at(c, x, y) == (
                if in_grid(ox + x, oy + y) { ChunkCell::InBounds(at(self.cells@, ox + x, oy + y)) } else { ChunkCell::OutOfBounds }) by {
                assert(slot_ok(in_bounds@, cells@, self.cells@, ox as int, oy as int, x, y));
            }
        }
        c
    }
}

impl CellGrid {
    /// Appends to `chunks` the windows of one pass: corners from
    /// `chunk_start(x_offset_by_1)` in steps of 60 up to 45 cells before the
    /// right edge, row by row from `chunk_start(y_offset_by_1)` likewise.
    pub fn chunks_mut(&self, x_offset_by_1: bool, y_offset_by_1: bool, chunks: &mut Vec<Chunk>)
        requires
            self.cells@.len() == n_cells(),
        ensures
            ({
                let xs = chunk_start(x_offset_by_1);
                let ys = chunk_start(y_offset_by_1);
                let nx = chunk_count(xs, SANDBOX_WIDTH as int);
                let ny = chunk_count(ys, SANDBOX_HEIGHT as int);
                &&& final(chunks)@.len() == old(chunks)@.len() + nx * ny
                &&& forall|j: int| 0 <= j < old(chunks)@.len() ==> #[trigger] final(chunks)@[j] == old(chunks)@[j]
                &&& forall|r: int, k: int| 0 <= r < ny && 0 <= k < nx ==>
                    window_of(self.cells@, xs + 60 * k, ys + 60 * r, #[trigger] final(chunks)@[old(chunks)@.len() + r * nx + k])
            }),
    {
        let x_start: isize = if x_offset_by_1 { 15 } else { -15 };
        let y_start: isize = if y_offset_by_1 { 15 } else { -15 };
        let x_end: isize = SANDBOX_WIDTH as isize - 45;
        let y_end: isize = SANDBOX_HEIGHT as isize - 45;
        let ghost nx = chunk_count(x_start as int, SANDBOX_WIDTH as int);
        let ghost ny = chunk_count(y_start as int, SANDBOX_HEIGHT as int);
        let ghost base = old(chunks)@.len();
        proof {
            assert(nx == 8);
            assert(y_offset_by_1 ==> ny == 4);
            assert(!y_offset_by_1 ==> ny == 5);
        }
        let mut chunk_start_y = y_start;
        let ghost mut r: int = 0;
        while chunk_start_y <= y_end
            invariant
                self.cells@.len() == n_cells(),
                x_start == chunk_start(x_offset_by_1),
                y_start == chunk_start(y_offset_by_1),
                x_end == 435,
                y_end == 225,
                nx == 8,
                ny == chunk_count(y_start as int, SANDBOX_HEIGHT as int),
                ny == (if y_offset_by_1 { 4int } else { 5int }),
                0 <= r <= ny,
                chunk_start_y == y_start + 60 * r,
                r < ny <==> chunk_start_y <= y_end,
                chunks@.len() == base + r * nx,
                base == old(chunks)@.len(),
                forall|j: int| 0 <= j < base ==> #[trigger] chunks@[j] == old(chunks)@[j],
                forall|rr: int, k: int| 0 <= rr < r && 0 <= k < nx ==>
                    window_of(self.cells@, x_start + 60 * k, y_start + 60 * rr, #[trigger] chunks@[base + rr * nx + k]),
            decreases ny - r,
        {
            let mut chunk_start_x = x_start;
            let ghost mut k: int = 0;
            while chunk_start_x <= x_end
                invariant
                    self.cells@.len() == n_cells(),
                    x_start == chunk_start(x_offset_by_1),
                    x_end == 435,
                    nx == 8,
                    0 <= r < ny,
                    0 <= k <= nx,
                    chunk_start_y == y_start + 60 * r,
                    -15 <= chunk_start_y <= 225,
                    chunk_start_x == x_start + 60 * k,
                    k < nx <==> chunk_start_x <= x_end,
                    chunks@.len() == base + r * nx + k,
                    base == old(chunks)@.len(),
                    forall|j: int| 0 <= j < base ==> #[trigger] chunks@[j] == old(chunks)@[j],
                    forall|rr: int, kk: int| ((0 <= rr < r && 0 <= kk < nx) || (rr == r && 0 <= kk < k)) ==>
                        window_of(self.cells@, x_start + 60 * kk, y_start + 60 * rr, #[trigger] chunks@[base + rr * nx + kk]),
                decreases nx - k,
            {
                let chunk = self.window(chunk_start_x, chunk_start_y);
                let ghost before = chunks@;
                chunks.push(chunk);
                proof {
                    assert forall|rr: int, kk: int| ((0 <= rr < r && 0 <= kk < nx) || (rr == r && 0 <= kk < k + 1)) implies
                        window_of(self.cells@, x_start + 60 * kk, y_start + 60 * rr, #[trigger] chunks@[base + rr * nx + kk]) by {
                        if !(rr == r && kk == k) {
                            assert(rr * nx + kk < r * nx + k) by (nonlinear_arith)
                                requires (0 <= rr < r && 0 <= kk < nx) || (rr == r && 0 <= kk < k), nx == 8, 0 <= k;
                            assert(chunks@[base + rr * nx + kk] == before[base + rr * nx + kk]);
                        }
                    }
                }
                chunk_start_x = chunk_start_x + 60;
                proof { k = k + 1; }
            }
            chunk_start_y = chunk_start_y + 60;
            proof { r = r + 1; }
        }
    }

    /// Copies the cells of `chunk` that lie on the grid back into the grid.
    pub fn write_back(&mut self, chunk: &Chunk)
        requires
            old(self).cells@.len() == n_cells(),
            chunk_ok(*chunk),
            -60 <= chunk.origin_x <= 1000,
            -60 <= chunk.origin_y <= 1000,
            forall|x: int, y: int| in_chunk(x, y) ==>
                (chunk.in_bounds@[x * CHUNK_SIZE + y] <==> in_grid(chunk.origin_x + x, chunk.origin_y + y)),
        ensures
            final(self).cells@.len() == n_cells(),
            forall|cx: int, cy: int| in_grid(cx, cy) ==>
                #[trigger] at(final(self).cells@, cx, cy) == written_cell(old(self).cells@, *chunk, cx, cy),
    {
        let ghost g = self.cells@;
        let ox = chunk.origin_x;
        let oy = chunk.origin_y;
        let mut x_offset: usize = 0;
        while x_offset < CHUNK_SIZE
            invariant
                x_offset <= CHUNK_SIZE,
                self.cells@.len() == n_cells(),
                g == old(self).cells@,
                chunk_ok(*chunk),
                ox == chunk.origin_x,
                oy == chunk.origin_y,
                -60 <= ox <= 1000,
                -60 <= oy <= 1000,
                forall|x: int, y: int| in_chunk(x, y) ==>
                    (chunk.in_bounds@[x * CHUNK_SIZE + y] <==> in_grid(chunk.origin_x + x, chunk.origin_y + y)),
                forall|cx: int, cy: int| in_grid(cx, cy) ==> #[trigger] at(self.cells@, cx, cy) == (
                    if 0 <= cx - ox < x_offset && 0 <= cy - oy < CHUNK_SIZE {
                        chunk.cells@[(cx - ox) * CHUNK_SIZE + (cy - oy)]
                    } else {
                        at(g, cx, cy)
                    }),
            decreases CHUNK_SIZE - x_offset,
        {
            let mut y_offset: usize = 0;
            while y_offset < CHUNK_SIZE
                invariant
                    x_offset < CHUNK_SIZE,
                    y_offset <= CHUNK_SIZE,
                    self.cells@.len() == n_cells(),
                    g == old(self).cells@,
                    chunk_ok(*chunk),
                    ox == chunk.origin_x,
                    oy == chunk.origin_y,
                    -60 <= ox <= 1000,
                    -60 <= oy <= 1000,
                    forall|x: int, y: int| in_chunk(x, y) ==>
                        (chunk.in_bounds@[x * CHUNK_SIZE + y] <==> in_grid(chunk.origin_x + x, chunk.origin_y + y)),
                    forall|cx: int, cy: int| in_grid(cx, cy) ==> #[trigger] at(self.cells@, cx, cy) == (
                        if (0 <= cx - ox < x_offset && 0 <= cy - oy < CHUNK_SIZE) || (cx - ox == x_offset && 0 <= cy - oy < y_offset) {
                            chunk.cells@[(cx - ox) * CHUNK_SIZE + (cy - oy)]
                        } else {
                            at(g, cx, cy)
                        }),
                decreases CHUNK_SIZE - y_offset,
            {
                let i = x_offset * CHUNK_SIZE + y_offset;
                let ghost cur = self.cells@;
                proof {
                    assert(in_chunk(x_offset as int, y_offset as int));
                    assert(chunk.in_bounds@[x_offset * CHUNK_SIZE + y_offset]
                        <==> in_grid(chunk.origin_x + x_offset, chunk.origin_y + y_offset));
                }
                if chunk.in_bounds[i] {
                    let x = (ox + x_offset as isize) as usize;
                    let y = (oy + y_offset as isize) as usize;
                    self.set(x, y, chunk.cells[i]);
                    proof {
                        assert forall|cx: int, cy: int| in_grid(cx, cy) implies #[trigger] at(self.cells@, cx, cy) == (
                            if (0 <= cx - ox < x_offset && 0 <= cy - oy < CHUNK_SIZE) || (cx - ox == x_offset && 0 <= cy - oy < y_offset + 1) {
                                chunk.cells@[(cx - ox) * CHUNK_SIZE + (cy - oy)]
                            } else {
                                at(g, cx, cy)
                            }) by {
                            lemma_cell_index(cx, cy, x as int, y as int);
                            assert(at(cur, cx, cy) == (
                                if (0 <= cx - ox < x_offset && 0 <= cy - oy < CHUNK_SIZE) || (cx - ox == x_offset && 0 <= cy - oy < y_offset) {
                                    chunk.cells@[(cx - ox) * CHUNK_SIZE + (cy - oy)]
                                } else {
                                    at(g, cx, cy)
                                }));
                        }
                    }
                } else {
                    proof {
                        assert(!in_grid(ox + x_offset, oy + y_offset));
                    }
                }
                y_offset = y_offset + 1;
            }
            x_offset = x_offset + 1;
        }
        proof {
            assert forall|cx: int, cy: int| in_grid(cx, cy) implies
                #[trigger] at(self.cells@, cx, cy) == written_cell(g, *chunk, cx, cy) by {}
        }
    }
}

/// Cell `(cx, cy)` of grid `g` once chunk `c` is written back into it: the
/// chunk's copy where the chunk covers the cell, else the grid's own.
pub open spec fn written_cell(g: Seq<Option<Particle>>, c: Chunk, cx: int, cy: int) -> Option<Particle> {
    if in_chunk(cx - c.origin_x, cy - c.origin_y) {
        c.cells@[(cx - c.origin_x) * CHUNK_SIZE + (cy - c.origin_y)]
    } else {
        at(g, cx, cy)
    }
}

/// Editing a window and writing it back edits the grid: take the window on
/// `g` (see `window_of`), replace its cell `(x, y)`, one that lies on the
/// grid, by `o` (as a write through `get_mut_cell` or `get_mut_particle`
/// does), and writing the chunk back (see `CellGrid::write_back`) gives the
/// grid with cell `(origin_x + x, origin_y + y)` set to `o` and every other
/// cell as it was.
pub proof fn lemma_window_edit_reaches_grid(g: Seq<Option<Particle>>, c: Chunk, edited: Chunk, x: int, y: int, o: Option<Particle>)
    requires
        g.len() == n_cells(),
        window_of(g, c.origin_x as int, c.origin_y as int, c),
        in_chunk(x, y),
        in_grid(c.origin_x + x, c.origin_y + y),
        edited.origin_x == c.origin_x,
        edited.origin_y == c.origin_y,
        edited.cells@ == c.cells@.update(x * CHUNK_SIZE + y, o),
    ensures
        forall|cx: int, cy: int| in_grid(cx, cy) ==>
            #[trigger] written_cell(g, edited, cx, cy) == at(put(g, c.origin_x + x, c.origin_y + y, o), cx, cy),
{
    let ox = c.origin_x as int;
    let oy = c.origin_y as int;
    assert forall|cx: int, cy: int| in_grid(cx, cy) implies
        #[trigger] written_cell(g, edited, cx, cy) == at(put(g, ox + x, oy + y, o), cx, cy) by {
        lemma_cell_index(cx, cy, ox + x, oy + y);
        if in_chunk(cx - ox, cy - oy) {
            let a = cx - ox;
            let b = cy - oy;
            if (a, b) != (x, y) {
                assert(a * CHUNK_SIZE + b != x * CHUNK_SIZE + y) by (nonlinear_arith)
                    requires 0 <= a < 60, 0 <= b < 60, 0 <= x < 60, 0 <= y < 60, (a, b) != (x, y);
                assert(chunk_at(c, a, b) == ChunkCell::InBounds(at(g, cx, cy)));
            }
        }
    }
}

/// The four passes of a parallel update, as (offset along x, offset along
/// y): together they put every 30 x 30 block of the grid at the centre of
/// some chunk.
pub open spec fn passes() -> Seq<(bool, bool)> {
    seq![(false, false), (true, false), (false, true), (true, true)]
}

/// The four passes in an order the generator chose: each pass exactly once.
pub fn shuffled_passes(rng: &mut rand_pcg::Lcg128Xsl64) -> (order: [(bool, bool); 4])
    ensures
        order@.to_multiset() == passes().to_multiset(),
{
    let mut order = [(false, false), (true, false), (false, true), (true, true)];
    assert(order@ == passes());
    shuffle_four(rng, &mut order);
    order
}

/// Two chunks of one pass never share a grid cell: their corners differ by
/// a multiple of 60 along one axis at least, and each spans 60 cells, so
/// updating them side by side cannot interfere.
pub proof fn lemma_chunks_disjoint(xs: int, ys: int, k1: int, r1: int, k2: int, r2: int, x1: int, y1: int, x2: int, y2: int)
    requires
        (k1, r1) != (k2, r2),
        in_chunk(x1, y1),
        in_chunk(x2, y2),
    ensures
        (xs + 60 * k1 + x1, ys + 60 * r1 + y1) != (xs + 60 * k2 + x2, ys + 60 * r2 + y2),
{
    if k1 != k2 {
        assert(60 * k1 + x1 != 60 * k2 + x2) by (nonlinear_arith)
            requires k1 != k2, 0 <= x1 < 60, 0 <= x2 < 60;
    } else {
        assert(60 * r1 + y1 != 60 * r2 + y2) by (nonlinear_arith)
            requires r1 != r2, 0 <= y1 < 60, 0 <= y2 < 60;
    }
}

impl Chunk {
    /// The particle at `(x, y)`, which must lie on the grid and hold one.
    pub fn get_particle(&self, x: usize, y: usize) -> (p: &Particle)
        requires
            chunk_ok(*self),
            in_chunk(x as int, y as int),
            chunk_at(*self, x as int, y as int) matches ChunkCell::InBounds(Some(_)),
        ensures
            chunk_at(*self, x as int, y as int) == ChunkCell::InBounds(Some(*p)),
    {
        self.cells[x * CHUNK_SIZE + y].as_ref().unwrap()
    }

    /// The particle at `(x, y)`, to change in place; the cell must lie on the
    /// grid and hold one.
    pub fn get_mut_particle(&mut self, x: usize, y: usize) -> (p: &mut Particle)
        requires
            chunk_ok(*old(self)),
            in_chunk(x as int, y as int),
            chunk_at(*old(self), x as int, y as int) matches ChunkCell::InBounds(Some(_)),
        ensures
            chunk_at(*old(self), x as int, y as int) == ChunkCell::InBounds(Some(*p)),
            final(self).cells@ == old(self).cells@.update(x * CHUNK_SIZE + y, Some(*final(p))),
            final(self).in_bounds == old(self).in_bounds,
            final(self).origin_x == old(self).origin_x,
            final(self).origin_y == old(self).origin_y,
    {
        self.cells[x * CHUNK_SIZE + y].as_mut().unwrap()
    }

    /// Whether `(x, y)` lies on the grid and is empty.
    pub fn is_empty(&self, x: usize, y: usize) -> (b: bool)
        requires
            chunk_ok(*self),
            in_chunk(x as int, y as int),
        ensures
            b == (chunk_at(*self, x as int, y as int) == ChunkCell::InBounds(None)),
    {
        let i = x * CHUNK_SIZE + y;
        self.in_bounds[i] && self.cells[i].is_none()
    }

    /// Whether `(x, y)` lies on the grid and holds a particle.
    pub fn is_not_empty(&self, x: usize, y: usize) -> (b: bool)
        requires
            chunk_ok(*self),
            in_chunk(x as int, y as int),
        ensures
            b == (chunk_at(*self, x as int, y as int) matches ChunkCell::InBounds(Some(_))),
    {
        let i = x * CHUNK_SIZE + y;
        self.in_bounds[i] && self.cells[i].is_some()
    }

    /// The cell at `(x, y)`, which must lie on the grid.
    pub fn get_cell(&self, x: usize, y: usize) -> (c: &Option<Particle>)
        requires
            chunk_ok(*self),
            in_chunk(x as int, y as int),
            chunk_at(*self, x as int, y as int) is InBounds,
        ensures
            chunk_at(*self, x as int, y as int) == ChunkCell::InBounds(*c),
    {
        &self.cells[x * CHUNK_SIZE + y]
    }

    /// The cell at `(x, y)`, to change in place; it must lie on the grid.
    pub fn get_mut_cell(&mut self, x: usize, y: usize) -> (c: &mut Option<Particle>)
        requires
            chunk_ok(*old(self)),
            in_chunk(x as int, y as int),
            chunk_at(*old(self), x as int, y as int) is InBounds,
        ensures
            chunk_at(*old(self), x as int, y as int) == ChunkCell::InBounds(*c),
            final(self).cells@ == old(self).cells@.update(x * CHUNK_SIZE + y, *final(c)),
            final(self).in_bounds == old(self).in_bounds,
            final(self).origin_x == old(self).origin_x,
            final(self).origin_y == old(self).origin_y,
    {
        &mut self.cells[x * CHUNK_SIZE + y]
    }

    /// Exchanges the contents of cells `(x1, y1)` and `(x2, y2)`, which must
    /// both lie on the grid.
    pub fn swap_cells(&mut self, x1: usize, y1: usize, x2: usize, y2: usize)
        requires
            chunk_ok(*old(self)),
            in_chunk(x1 as int, y1 as int),
            in_chunk(x2 as int, y2 as int),
            chunk_at(*old(self), x1 as int, y1 as int) is InBounds,
            chunk_at(*old(self), x2 as int, y2 as int) is InBounds,
        ensures
            chunk_ok(*final(self)),
            final(self).cells@ == old(self).cells@
                .update(x1 * CHUNK_SIZE + y1, old(self).cells@[x2 * CHUNK_SIZE + y2])
                .update(x2 * CHUNK_SIZE + y2, old(self).cells@[x1 * CHUNK_SIZE + y1]),
            final(self).in_bounds == old(self).in_bounds,
            final(self).origin_x == old(self).origin_x,
            final(self).origin_y == old(self).origin_y,
    {
        let i = x1 * CHUNK_SIZE + y1;
        let j = x2 * CHUNK_SIZE + y2;
        let a = self.cells[i];
        let b = self.cells[j];
        self.cells.set(i, b);
        self.cells.set(j, a);
    }
}

} // verus!
