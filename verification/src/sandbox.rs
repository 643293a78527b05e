//! The sandbox: a `SANDBOX_WIDTH` x `SANDBOX_HEIGHT` grid of cells, each empty
//! or holding one particle, with its random number generator, update counter
//! and background picture.

use vstd::prelude::*;
use crate::particle::{Particle, ParticleType, conductivity_of};
use crate::heap_array::{create_background_array, create_cells_array};
use crate::rng::new_rng;

verus! {

pub const SANDBOX_WIDTH: usize = 480;
pub const SANDBOX_HEIGHT: usize = 270;

/// The grid, column by column: cell `(x, y)` is at `x * SANDBOX_HEIGHT + y`,
/// `y` growing downward.
pub struct Sandbox {
    pub cells: Vec<Option<Particle>>,
    pub last_cells: Vec<Option<Particle>>,
    pub rng: rand_pcg::Lcg128Xsl64,
    pub update_counter: u8,
    pub background: Vec<u8>,
}

/// The number of cells of the grid.
pub open spec fn n_cells() -> int {
    SANDBOX_WIDTH * SANDBOX_HEIGHT
}

/// Whether `(x, y)` lies on the grid.
pub open spec fn in_grid(x: int, y: int) -> bool {
    0 <= x < SANDBOX_WIDTH && 0 <= y < SANDBOX_HEIGHT
}

/// Where cell `(x, y)` is stored.
pub open spec fn cell_index(x: int, y: int) -> int {
    x * SANDBOX_HEIGHT + y
}

/// The content of cell `(x, y)` of grid `g`.
pub open spec fn at(g: Seq<Option<Particle>>, x: int, y: int) -> Option<Particle> {
    g[cell_index(x, y)]
}

/// Whether cell `(x, y)` of `g` is on the grid and empty.
pub open spec fn vacant(g: Seq<Option<Particle>>, x: int, y: int) -> bool {
    in_grid(x, y) && at(g, x, y) is None
}

/// Whether cell `(x, y)` of `g` is on the grid and holds a particle of kind `t`.
pub open spec fn holds_kind(g: Seq<Option<Particle>>, x: int, y: int, t: ParticleType) -> bool {
    in_grid(x, y) && at(g, x, y) is Some && at(g, x, y).unwrap().ptype == t
}

/// `g` with cell `(x, y)` set to `c`.
pub open spec fn put(g: Seq<Option<Particle>>, x: int, y: int, c: Option<Particle>) -> Seq<Option<Particle>> {
    g.update(cell_index(x, y), c)
}

/// `g` with the contents of cells `(x1, y1)` and `(x2, y2)` exchanged.
pub open spec fn swapped(g: Seq<Option<Particle>>, x1: int, y1: int, x2: int, y2: int) -> Seq<Option<Particle>> {
    put(put(g, x1, y1, at(g, x2, y2)), x2, y2, at(g, x1, y1))
}

/// The only per-particle invariant the rules rely on: an Electricity
/// particle's direction (`extra_data1`) is one of the four directions 0..=3.
pub open spec fn consistent(p: Particle) -> bool {
    p.ptype == ParticleType::Electricity ==> 0 <= p.extra_data1 <= 3
}

/// A cell content that satisfies `consistent`.
pub open spec fn cell_ok(c: Option<Particle>) -> bool {
    c matches Some(p) ==> consistent(p)
}

/// A well-formed grid: the right number of cells, every particle consistent.
pub open spec fn grid_ok(g: Seq<Option<Particle>>) -> bool {
    &&& g.len() == n_cells()
    &&& forall|i: int| 0 <= i < g.len() ==> #[trigger] cell_ok(g[i])
}

/// The parts of the sandbox that the particle rules leave alone.
pub open spec fn same_frame(a: Sandbox, b: Sandbox) -> bool {
    &&& a.last_cells == b.last_cells
    &&& a.update_counter == b.update_counter
    &&& a.background == b.background
}

/// Grids with the same index have the same cells; two different cells of the
/// grid never share a storage index.
pub proof fn lemma_cell_index(x1: int, y1: int, x2: int, y2: int)
    requires
        in_grid(x1, y1),
        in_grid(x2, y2),
    ensures
        0 <= cell_index(x1, y1) < n_cells(),
        cell_index(x1, y1) == cell_index(x2, y2) <==> (x1 == x2 && y1 == y2),
{
}

/// Writing a consistent cell keeps a grid well formed.
pub proof fn lemma_put_ok(g: Seq<Option<Particle>>, x: int, y: int, c: Option<Particle>)
    requires
        grid_ok(g),
        in_grid(x, y),
        cell_ok(c),
    ensures
        grid_ok(put(g, x, y, c)),
{
    let h = put(g, x, y, c);
    assert forall|i: int| 0 <= i < h.len() implies #[trigger] cell_ok(h[i]) by {
        if i != cell_index(x, y) {
            assert(cell_ok(g[i]));
        }
    }
}

/// Exchanging two cells keeps a grid well formed.
pub proof fn lemma_swap_ok(g: Seq<Option<Particle>>, x1: int, y1: int, x2: int, y2: int)
    requires
        grid_ok(g),
        in_grid(x1, y1),
        in_grid(x2, y2),
    ensures
        grid_ok(swapped(g, x1, y1, x2, y2)),
{
    assert(cell_ok(g[cell_index(x1, y1)]));
    assert(cell_ok(g[cell_index(x2, y2)]));
    lemma_put_ok(g, x1, y1, at(g, x2, y2));
    lemma_put_ok(put(g, x1, y1, at(g, x2, y2)), x2, y2, at(g, x1, y1));
}

/// The grid `g` with every cell `(cx, cy)` replaced by `f(cx, cy, old content)`.
pub open spec fn map_cells(
    g: Seq<Option<Particle>>,
    f: spec_fn(int, int, Option<Particle>) -> Option<Particle>,
) -> Seq<Option<Particle>> {
    Seq::new(g.len(), |i: int| f(i / (SANDBOX_HEIGHT as int), i % (SANDBOX_HEIGHT as int), g[i]))
}

/// Storage index and grid position determine each other.
pub proof fn lemma_coords(cx: int, cy: int)
    requires
        in_grid(cx, cy),
    ensures
        cell_index(cx, cy) / (SANDBOX_HEIGHT as int) == cx,
        cell_index(cx, cy) % (SANDBOX_HEIGHT as int) == cy,
        0 <= cell_index(cx, cy) < n_cells(),
{
    vstd::arithmetic::div_mod::lemma_fundamental_div_mod_converse(
        cell_index(cx, cy), SANDBOX_HEIGHT as int, cx, cy);
}

/// Every storage index is the index of a grid position.
pub proof fn lemma_index_coords(i: int)
    requires
        0 <= i < n_cells(),
    ensures
        in_grid(i / (SANDBOX_HEIGHT as int), i % (SANDBOX_HEIGHT as int)),
        cell_index(i / (SANDBOX_HEIGHT as int), i % (SANDBOX_HEIGHT as int)) == i,
{
    vstd::arithmetic::div_mod::lemma_fundamental_div_mod(i, SANDBOX_HEIGHT as int);
    assert(0 <= i / (SANDBOX_HEIGHT as int) < SANDBOX_WIDTH) by (nonlinear_arith)
        requires 0 <= i < 129600;
    assert(0 <= i % (SANDBOX_HEIGHT as int) < SANDBOX_HEIGHT) by (nonlinear_arith)
        requires 0 <= i;
}

/// Cell `(cx, cy)` of `map_cells(g, f)` is `f` of cell `(cx, cy)` of `g`.
pub proof fn lemma_map_cells_at(
    g: Seq<Option<Particle>>,
    f: spec_fn(int, int, Option<Particle>) -> Option<Particle>,
    cx: int,
    cy: int,
)
    requires
        g.len() == n_cells(),
        in_grid(cx, cy),
    ensures
        at(map_cells(g, f), cx, cy) == f(cx, cy, at(g, cx, cy)),
{
    lemma_coords(cx, cy);
}

/// Two grids that agree on every grid position are equal.
pub proof fn lemma_grid_ext(a: Seq<Option<Particle>>, b: Seq<Option<Particle>>)
    requires
        a.len() == n_cells(),
        b.len() == n_cells(),
        forall|cx: int, cy: int| in_grid(cx, cy) ==> #[trigger] at(a, cx, cy) == at(b, cx, cy),
    ensures
        a == b,
{
    assert forall|i: int| 0 <= i < a.len() implies a[i] == b[i] by {
        lemma_index_coords(i);
        assert(at(a, i / (SANDBOX_HEIGHT as int), i % (SANDBOX_HEIGHT as int))
            == at(b, i / (SANDBOX_HEIGHT as int), i % (SANDBOX_HEIGHT as int)));
    }
    assert(a =~= b);
}

impl Sandbox {
    /// The sizes of the sandbox's buffers: one cell per grid position in the
    /// grid and in the scratch grid, three bytes per position in the background.
    pub open spec fn sized(&self) -> bool {
        &&& self.cells@.len() == n_cells()
        &&& self.last_cells@.len() == n_cells()
        &&& self.background@.len() == 3 * n_cells()
    }

    /// The sandbox's invariant: the right sizes and a well-formed grid.
    pub open spec fn wf(&self) -> bool {
        &&& self.sized()
        &&& grid_ok(self.cells@)
    }

    /// Whether the sandbox satisfies its invariant (see `wf`): the buffers
    /// have their sizes and every Electricity particle's direction is 0..=3.
    pub fn is_well_formed(&self) -> (b: bool)
        ensures
            b == self.wf(),
    {
        let n: usize = SANDBOX_WIDTH * SANDBOX_HEIGHT;
        if self.cells.len() != n || self.last_cells.len() != n || self.background.len() != 3 * n {
            return false;
        }
        let mut i: usize = 0;
        while i < n
            invariant
                n == n_cells(),
                self.cells@.len() == n,
                i <= n,
                forall|j: int| 0 <= j < i ==> #[trigger] cell_ok(self.cells@[j]),
            decreases n - i,
        {
            if let Some(p) = self.cells[i] {
                if p.ptype == ParticleType::Electricity && (p.extra_data1 < 0 || p.extra_data1 > 3) {
                    assert(!cell_ok(self.cells@[i as int]));
                    return false;
                }
            }
            i = i + 1;
        }
        true
    }

    /// The content of cell `(x, y)`.
    pub fn get(&self, x: usize, y: usize) -> (c: Option<Particle>)
        requires
            self.cells@.len() == n_cells(),
            in_grid(x as int, y as int),
        ensures
            c == at(self.cells@, x as int, y as int),
    {
        self.cells[x * SANDBOX_HEIGHT + y]
    }

    /// Sets cell `(x, y)` to `c`.
    pub fn set(&mut self, x: usize, y: usize, c: Option<Particle>)
        requires
            old(self).sized(),
            in_grid(x as int, y as int),
        ensures
            final(self).sized(),
            old(self).wf() && cell_ok(c) ==> final(self).wf(),
            final(self).cells@ == put(old(self).cells@, x as int, y as int, c),
            final(self).rng == old(self).rng,
            same_frame(*final(self), *old(self)),
    {
        proof {
            if self.wf() && cell_ok(c) {
                lemma_put_ok(self.cells@, x as int, y as int, c);
            }
        }
        self.cells.set(x * SANDBOX_HEIGHT + y, c);
    }

    /// Exchanges the contents of cells `(x1, y1)` and `(x2, y2)`.
    pub fn swap(&mut self, x1: usize, y1: usize, x2: usize, y2: usize)
        requires
            old(self).sized(),
            in_grid(x1 as int, y1 as int),
            in_grid(x2 as int, y2 as int),
        ensures
            final(self).sized(),
            old(self).wf() ==> final(self).wf(),
            final(self).cells@ == swapped(old(self).cells@, x1 as int, y1 as int, x2 as int, y2 as int),
            final(self).rng == old(self).rng,
            same_frame(*final(self), *old(self)),
    {
        proof {
            if self.wf() {
                lemma_swap_ok(self.cells@, x1 as int, y1 as int, x2 as int, y2 as int);
            }
        }
        let a = self.cells[x1 * SANDBOX_HEIGHT + y1];
        let b = self.cells[x2 * SANDBOX_HEIGHT + y2];
        self.cells.set(x1 * SANDBOX_HEIGHT + y1, b);
        self.cells.set(x2 * SANDBOX_HEIGHT + y2, a);
    }
}

/// `|v|`.
pub open spec fn iabs(v: int) -> int {
    if v < 0 { -v } else { v }
}

/// Where pixel `(x, y)` starts in a row-major picture (the background and
/// the rendered frame are laid out row by row).
pub open spec fn pixel_index(x: int, y: int) -> int {
    y * SANDBOX_WIDTH + x
}

/// The grey level of background pixel `(x, y)`: a grid of lines every 7
/// cells (brighter every 21st and brightest every 35th line, counted from
/// an origin two cells up and left of the sandbox), darker stripes on every
/// other row, and a vignette darkening by one level per 20 cells of
/// Manhattan distance from the centre, rounded to nearest.
pub open spec fn background_shade(x: int, y: int) -> int {
    let a = x + 2;
    let b = y + 2;
    let lines: int = if a % 35 == 0 || b % 35 == 0 {
        80
    } else if a % 21 == 0 || b % 21 == 0 {
        70
    } else if a % 7 == 0 || b % 7 == 0 {
        60
    } else {
        30
    };
    let striped: int = if b % 2 == 0 { lines - 5 } else { lines };
    striped - (iabs(a - 240) + iabs(b - 135) + 10) / 20
}

/// Every pixel of background `bg` has its three channels at
/// `background_shade`.
pub open spec fn background_ok(bg: Seq<u8>) -> bool {
    &&& bg.len() == 3 * n_cells()
    &&& forall|x: int, y: int, c: int| in_grid(x, y) && 0 <= c < 3
        ==> #[trigger] bg[3 * pixel_index(x, y) + c] == background_shade(x, y)
}

/// The grey level of background pixel `(x, y)` (see `background_shade`).
fn shade(x: usize, y: usize) -> (v: u8)
    requires
        in_grid(x as int, y as int),
    ensures
        v == background_shade(x as int, y as int),
{
    let a = x + 2;
    let b = y + 2;
    let mut v: u8 = 30;
    if a % 7 == 0 || b % 7 == 0 {
        v = 60;
    }
    if a % 21 == 0 || b % 21 == 0 {
        v = 70;
    }
    if a % 35 == 0 || b % 35 == 0 {
        v = 80;
    }
    if b % 2 == 0 {
        v = v - 5;
    }
    let dx: usize = if a >= 240 { a - 240 } else { 240 - a };
    let dy: usize = if b >= 135 { b - 135 } else { 135 - b };
    let m: usize = (dx + dy + 10) / 20;
    assert(m <= 19) by (nonlinear_arith)
        requires m == (dx + dy + 10) / 20, dx <= 242, dy <= 137;
    v - (m as u8)
}

/// The number after `c` on the update counter, which cycles through
/// 1..=255 and never takes the value 0 of a new particle.
pub open spec fn next_counter(c: u8) -> u8 {
    if c == 255 { 1 } else { (c + 1) as u8 }
}

/// The update counter moves on at every pass and skips 0, the stamp that a
/// newly created particle carries: whatever its value, the next one differs
/// from it and from 0, so a new particle, or one handled by the previous
/// pass, is never taken for one the coming pass has already handled.
pub proof fn lemma_counter_skips_zero(c: u8)
    ensures
        next_counter(c) != 0,
        next_counter(c) != c,
        1 <= next_counter(c) <= 255,
{
}

/// `value` limited to `min..=max`.
pub open spec fn clamped(value: int, min: int, max: int) -> int {
    if value < min { min } else if value > max { max } else { value }
}

/// `value` limited to `min..=max` (`min <= max`; larger `min` panics).
pub fn clamp(value: i16, min: i16, max: i16) -> (r: i16)
    requires
        min <= max,
    ensures
        r == clamped(value as int, min as int, max as int),
        min <= r <= max,
{
    let mut x = value;
    if x < min {
        x = min;
    }
    if x > max {
        x = max;
    }
    x
}

impl Sandbox {
    /// An empty sandbox: no particles, the update counter at 1, the
    /// generator seeded with PCG's default state and stream, and the
    /// background drawn (see `background_shade`).
    pub fn new() -> (sb: Sandbox)
        ensures
            sb.wf(),
            sb.cells@ == Seq::new(n_cells() as nat, |i: int| None::<Particle>),
            sb.update_counter == 1,
            background_ok(sb.background@),
    {
        let mut background = create_background_array(30);
        let mut i: usize = 0;
        let mut y: usize = 0;
        while y < SANDBOX_HEIGHT
            invariant
                y <= SANDBOX_HEIGHT,
                i == 3 * pixel_index(0, y as int),
                background@.len() == 3 * n_cells(),
                forall|px: int, py: int, c: int| in_grid(px, py) && 0 <= c < 3 && py < y
                    ==> #[trigger] background@[3 * pixel_index(px, py) + c] == background_shade(px, py),
            decreases SANDBOX_HEIGHT - y,
        {
            let mut x: usize = 0;
            while x < SANDBOX_WIDTH
                invariant
                    y < SANDBOX_HEIGHT,
                    x <= SANDBOX_WIDTH,
                    i == 3 * pixel_index(x as int, y as int),
                    background@.len() == 3 * n_cells(),
                    forall|px: int, py: int, c: int| in_grid(px, py) && 0 <= c < 3
                        && (py < y || (py == y && px < x))
                        ==> #[trigger] background@[3 * pixel_index(px, py) + c] == background_shade(px, py),
                decreases SANDBOX_WIDTH - x,
            {
                let v = shade(x, y);
                background.set(i, v);
                background.set(i + 1, v);
                background.set(i + 2, v);
                i = i + 3;
                x = x + 1;
            }
            y = y + 1;
        }
        Sandbox {
            cells: create_cells_array(None),
            last_cells: create_cells_array(None),
            rng: new_rng(0xcafef00dd15ea5e5, 0xa02bdbf7bb3c0a7ac28fa16a64abf96),
            update_counter: 1,
            background,
        }
    }

    /// Removes every particle and restarts the update counter at 1.
    pub fn empty_out(&mut self)
        requires
            old(self).sized(),
        ensures
            final(self).wf(),
            final(self).cells@ == Seq::new(n_cells() as nat, |i: int| None::<Particle>),
            final(self).update_counter == 1,
            final(self).last_cells == old(self).last_cells,
            final(self).background == old(self).background,
            final(self).rng == old(self).rng,
    {
        let n: usize = SANDBOX_WIDTH * SANDBOX_HEIGHT;
        let mut i: usize = 0;
        while i < n
            invariant
                n == n_cells(),
                i <= n,
                self.sized(),
                self.last_cells == old(self).last_cells,
                self.background == old(self).background,
                self.rng == old(self).rng,
                forall|j: int| 0 <= j < i ==> #[trigger] self.cells@[j] is None,
            decreases n - i,
        {
            self.cells.set(i, None);
            i = i + 1;
        }
        self.update_counter = 1;
        assert(self.cells@ =~= Seq::new(n_cells() as nat, |i: int| None::<Particle>));
    }
}

/// `a / b` rounded toward zero (`b > 0`), as integer division does.
pub open spec fn div_trunc(a: int, b: int) -> int {
    if a < 0 { -((-a) / b) } else { a / b }
}

/// `p` at temperature `t`.
pub open spec fn with_temperature(p: Particle, t: i16) -> Particle {
    Particle { temperature: t, ..p }
}

/// One heat exchange between the particle at `(x, y)` and the one at
/// `(nx, ny)`, if there is one on the grid: with `t0` and `c0` the
/// temperature and conductivity that `(x, y)` had at the start of the pass,
/// `t0 / (c0 + c1)` (rounded toward zero, `c1` the neighbour's
/// conductivity) flows from `(x, y)` to the neighbour, wrapping at the
/// bounds of `i16`.
pub open spec fn exchange(g: Seq<Option<Particle>>, x: int, y: int, nx: int, ny: int, t0: i16, c0: i16) -> Seq<Option<Particle>> {
    if in_grid(nx, ny) && at(g, nx, ny) is Some {
        let q = at(g, nx, ny).unwrap();
        let t = div_trunc(t0 as int, c0 + conductivity_of(q.ptype)) as i16;
        let me = at(g, x, y).unwrap();
        let g1 = put(g, x, y, Some(with_temperature(me, me.temperature.wrapping_sub(t))));
        put(g1, nx, ny, Some(with_temperature(q, q.temperature.wrapping_add(t))))
    } else {
        g
    }
}

/// The exchanges of the particle at `(x, y)` (as it was in `snap`) with its
/// neighbours below, right, above and left, in that order, applied to `g`.
pub open spec fn exchange_at(snap: Seq<Option<Particle>>, g: Seq<Option<Particle>>, x: int, y: int) -> Seq<Option<Particle>> {
    match at(snap, x, y) {
        Some(p) => {
            let c = conductivity_of(p.ptype);
            let t = p.temperature;
            let g1 = exchange(g, x, y, x, y + 1, t, c);
            let g2 = exchange(g1, x, y, x + 1, y, t, c);
            let g3 = exchange(g2, x, y, x, y - 1, t, c);
            exchange(g3, x, y, x - 1, y, t, c)
        },
        None => g,
    }
}

/// The grid after the temperature pass has handled the first `i` cells in
/// storage order (column by column, each column top to bottom), starting
/// from `snap`.
pub open spec fn exchanged(snap: Seq<Option<Particle>>, i: int) -> Seq<Option<Particle>>
    decreases i,
{
    if i <= 0 {
        snap
    } else {
        exchange_at(snap, exchanged(snap, i - 1), (i - 1) / (SANDBOX_HEIGHT as int), (i - 1) % (SANDBOX_HEIGHT as int))
    }
}

/// Two cells hold the same particle but for its temperature (or are both empty).
pub open spec fn same_but_heat(a: Option<Particle>, b: Option<Particle>) -> bool {
    match (a, b) {
        (Some(p), Some(q)) => q == with_temperature(p, q.temperature),
        (None, None) => true,
        _ => false,
    }
}

/// Two grids that differ at most in the temperatures of their particles.
pub open spec fn same_but_heat_grid(a: Seq<Option<Particle>>, b: Seq<Option<Particle>>) -> bool {
    &&& a.len() == b.len()
    &&& forall|i: int| 0 <= i < a.len() ==> #[trigger] same_but_heat(a[i], b[i])
}

impl Sandbox {
    /// One exchange (see `exchange`) between `(x, y)` and `(nx, ny)`.
    fn exchange_with(&mut self, x: usize, y: usize, nx: usize, ny: usize, t0: i16, c0: i16)
        requires
            old(self).sized(),
            in_grid(x as int, y as int),
            in_grid(nx as int, ny as int),
            (x, y) != (nx, ny),
            at(old(self).cells@, x as int, y as int) is Some,
            2 <= c0 <= 8,
        ensures
            final(self).cells@ == exchange(old(self).cells@, x as int, y as int, nx as int, ny as int, t0, c0),
            final(self).sized(),
            final(self).last_cells == old(self).last_cells,
            final(self).background == old(self).background,
            final(self).update_counter == old(self).update_counter,
            final(self).rng == old(self).rng,
            old(self).wf() ==> final(self).wf(),
    {
        if let Some(q) = self.get(nx, ny) {
            let tc = c0 + q.thermal_conductivity();
            let t = t0 / tc;
            let mut me = self.get(x, y).unwrap();
            proof {
                lemma_cell_index(x as int, y as int, nx as int, ny as int);
                if self.wf() {
                    lemma_coords(x as int, y as int);
                    assert(cell_ok(self.cells@[x * SANDBOX_HEIGHT + y]));
                    lemma_coords(nx as int, ny as int);
                    assert(cell_ok(self.cells@[nx * SANDBOX_HEIGHT + ny]));
                }
            }
            me.temperature = me.temperature.wrapping_sub(t);
            self.set(x, y, Some(me));
            let mut other = q;
            other.temperature = other.temperature.wrapping_add(t);
            self.set(nx, ny, Some(other));
            proof {
                assert(t as int == div_trunc(t0 as int, c0 + conductivity_of(q.ptype)));
            }
        }
    }

    /// The exchanges of the particle at `(x, y)` with its four neighbours
    /// (see `exchange_at`), with the snapshot in `last_cells`.
    fn exchange_cell(&mut self, x: usize, y: usize)
        requires
            old(self).sized(),
            in_grid(x as int, y as int),
            same_but_heat_grid(old(self).last_cells@, old(self).cells@),
        ensures
            final(self).cells@ == exchange_at(old(self).last_cells@, old(self).cells@, x as int, y as int),
            final(self).sized(),
            same_but_heat_grid(final(self).last_cells@, final(self).cells@),
            final(self).last_cells == old(self).last_cells,
            final(self).background == old(self).background,
            final(self).update_counter == old(self).update_counter,
            final(self).rng == old(self).rng,
            old(self).wf() ==> final(self).wf(),
    {
        proof { lemma_coords(x as int, y as int); }
        if let Some(p1) = self.last_cells[x * SANDBOX_HEIGHT + y] {
            let c = p1.thermal_conductivity();
            let t = p1.temperature;
            let ghost snap = self.last_cells@;
            let ghost g0 = self.cells@;
            proof {
                assert(same_but_heat(snap[x * SANDBOX_HEIGHT + y], g0[x * SANDBOX_HEIGHT + y]));
            }
            if y != SANDBOX_HEIGHT - 1 {
                proof { lemma_exchange_shape(self.cells@, x as int, y as int, x as int, y + 1, t, c); }
                self.exchange_with(x, y, x, y + 1, t, c);
            }
            let ghost g1 = self.cells@;
            proof {
                assert(g1 == exchange(g0, x as int, y as int, x as int, y + 1, t, c));
                lemma_exchange_shape(g0, x as int, y as int, x as int, y + 1, t, c);
                lemma_heat_trans(snap, g0, g1);
                assert(same_but_heat(snap[x * SANDBOX_HEIGHT + y], g1[x * SANDBOX_HEIGHT + y]));
            }
            if x != SANDBOX_WIDTH - 1 {
                proof { lemma_exchange_shape(self.cells@, x as int, y as int, x + 1, y as int, t, c); }
                self.exchange_with(x, y, x + 1, y, t, c);
            }
            let ghost g2 = self.cells@;
            proof {
                assert(g2 == exchange(g1, x as int, y as int, x + 1, y as int, t, c));
                lemma_exchange_shape(g1, x as int, y as int, x + 1, y as int, t, c);
                lemma_heat_trans(snap, g1, g2);
                assert(same_but_heat(snap[x * SANDBOX_HEIGHT + y], g2[x * SANDBOX_HEIGHT + y]));
            }
            if y != 0 {
                proof { lemma_exchange_shape(self.cells@, x as int, y as int, x as int, y - 1, t, c); }
                self.exchange_with(x, y, x, y - 1, t, c);
            }
            let ghost g3 = self.cells@;
            proof {
                assert(g3 == exchange(g2, x as int, y as int, x as int, y - 1, t, c));
                lemma_exchange_shape(g2, x as int, y as int, x as int, y - 1, t, c);
                lemma_heat_trans(snap, g2, g3);
                assert(same_but_heat(snap[x * SANDBOX_HEIGHT + y], g3[x * SANDBOX_HEIGHT + y]));
            }
            if x != 0 {
                proof { lemma_exchange_shape(self.cells@, x as int, y as int, x - 1, y as int, t, c); }
                self.exchange_with(x, y, x - 1, y, t, c);
            }
            proof {
                let g4 = self.cells@;
                assert(g4 == exchange(g3, x as int, y as int, x - 1, y as int, t, c));
                lemma_exchange_shape(g3, x as int, y as int, x - 1, y as int, t, c);
                lemma_heat_trans(snap, g3, g4);
            }
        }
    }
}

/// `same_but_heat_grid` is transitive.
pub proof fn lemma_heat_trans(a: Seq<Option<Particle>>, b: Seq<Option<Particle>>, c: Seq<Option<Particle>>)
    requires
        same_but_heat_grid(a, b),
        same_but_heat_grid(b, c),
    ensures
        same_but_heat_grid(a, c),
{
    assert forall|i: int| 0 <= i < a.len() implies #[trigger] same_but_heat(a[i], c[i]) by {
        assert(same_but_heat(a[i], b[i]));
        assert(same_but_heat(b[i], c[i]));
    }
}

/// A heat exchange changes temperatures only.
pub proof fn lemma_exchange_shape(g: Seq<Option<Particle>>, x: int, y: int, nx: int, ny: int, t0: i16, c0: i16)
    requires
        g.len() == n_cells(),
        in_grid(x, y),
        at(g, x, y) is Some,
        (x, y) != (nx, ny),
    ensures
        same_but_heat_grid(g, exchange(g, x, y, nx, ny, t0, c0)),
        grid_ok(g) ==> grid_ok(exchange(g, x, y, nx, ny, t0, c0)),
{
    let h = exchange(g, x, y, nx, ny, t0, c0);
    if in_grid(nx, ny) {
        lemma_cell_index(x, y, nx, ny);
    }
    assert forall|i: int| 0 <= i < g.len() implies #[trigger] same_but_heat(g[i], h[i]) by {}
    if grid_ok(g) {
        assert forall|i: int| 0 <= i < h.len() implies #[trigger] cell_ok(h[i]) by {
            assert(cell_ok(g[i]));
            assert(same_but_heat(g[i], h[i]));
        }
    }
}

impl Sandbox {
    /// Moves heat between adjacent particles: every particle, in storage
    /// order, exchanges heat with its neighbours below, right, above and left
    /// (see `exchange_at`), each flow computed from the temperature it had
    /// before the pass, which `last_cells` keeps.
    pub fn temperature_update(&mut self)
        requires
            old(self).sized(),
        ensures
            final(self).sized(),
            final(self).last_cells@ == old(self).cells@,
            final(self).cells@ == exchanged(old(self).cells@, n_cells()),
            final(self).background == old(self).background,
            final(self).update_counter == old(self).update_counter,
            final(self).rng == old(self).rng,
            old(self).wf() ==> final(self).wf(),
    {
        let n: usize = SANDBOX_WIDTH * SANDBOX_HEIGHT;
        let mut i: usize = 0;
        while i < n
            invariant
                n == n_cells(),
                i <= n,
                self.sized(),
                self.cells == old(self).cells,
                self.background == old(self).background,
                self.update_counter == old(self).update_counter,
                self.rng == old(self).rng,
                forall|j: int| 0 <= j < i ==> #[trigger] self.last_cells@[j] == self.cells@[j],
            decreases n - i,
        {
            let c = self.cells[i];
            self.last_cells.set(i, c);
            i = i + 1;
        }
        proof {
            assert(self.last_cells@ =~= self.cells@);
            assert forall|j: int| 0 <= j < self.cells@.len() implies #[trigger] same_but_heat(self.last_cells@[j], self.cells@[j]) by {
                match self.cells@[j] {
                    Some(p) => { assert(p == with_temperature(p, p.temperature)); },
                    None => {},
                }
            }
        }
        let ghost snap = self.cells@;
        let mut x: usize = 0;
        while x < SANDBOX_WIDTH
            invariant
                x <= SANDBOX_WIDTH,
                self.sized(),
                self.last_cells@ == snap,
                snap == old(self).cells@,
                self.cells@ == exchanged(snap, x * SANDBOX_HEIGHT),
                same_but_heat_grid(self.last_cells@, self.cells@),
                self.background == old(self).background,
                self.update_counter == old(self).update_counter,
                self.rng == old(self).rng,
                old(self).wf() ==> self.wf(),
            decreases SANDBOX_WIDTH - x,
        {
            let mut y: usize = 0;
            while y < SANDBOX_HEIGHT
                invariant
                    x < SANDBOX_WIDTH,
                    y <= SANDBOX_HEIGHT,
                    self.sized(),
                    self.last_cells@ == snap,
                    snap == old(self).cells@,
                    self.cells@ == exchanged(snap, x * SANDBOX_HEIGHT + y),
                    same_but_heat_grid(self.last_cells@, self.cells@),
                    self.background == old(self).background,
                    self.update_counter == old(self).update_counter,
                    self.rng == old(self).rng,
                    old(self).wf() ==> self.wf(),
                decreases SANDBOX_HEIGHT - y,
            {
                proof { lemma_coords(x as int, y as int); }
                self.exchange_cell(x, y);
                proof {
                    let k = x * SANDBOX_HEIGHT + y;
                    assert(exchanged(snap, k + 1) == exchange_at(snap, exchanged(snap, k), x as int, y as int));
                }
                y = y + 1;
            }
            x = x + 1;
        }
    }
}

/// The temperature of a cell's particle; 0 for an empty cell.
pub open spec fn temp_of(c: Option<Particle>) -> int {
    match c {
        Some(p) => p.temperature as int,
        None => 0,
    }
}

/// The sum of the temperatures of all particles of `g`.
pub open spec fn heat(g: Seq<Option<Particle>>) -> int
    decreases g.len(),
{
    if g.len() == 0 { 0 } else { heat(g.drop_last()) + temp_of(g.last()) }
}

/// Replacing one cell changes the total by the difference of the two
/// temperatures.
pub proof fn lemma_heat_update(g: Seq<Option<Particle>>, i: int, c: Option<Particle>)
    requires
        0 <= i < g.len(),
    ensures
        heat(g.update(i, c)) == heat(g) - temp_of(g[i]) + temp_of(c),
    decreases g.len(),
{
    let h = g.update(i, c);
    if i == g.len() - 1 {
        assert(h.drop_last() =~= g.drop_last());
    } else {
        assert(h.drop_last() =~= g.drop_last().update(i, c));
        lemma_heat_update(g.drop_last(), i, c);
    }
}

/// `k` times 2^16.
pub open spec fn wraps(k: int) -> int {
    65536 * k
}

/// Two totals that differ by a multiple of 2^16.
pub open spec fn congruent_heat(a: int, b: int) -> bool {
    exists|k: int| a == b + #[trigger] wraps(k)
}

/// A wrapped sum differs from the true sum by a multiple of 2^16.
proof fn lemma_wrap_i16(a: i16, t: i16)
    ensures
        congruent_heat(a.wrapping_sub(t) as int, a - t),
        congruent_heat(a.wrapping_add(t) as int, a + t),
{
    if a - t > i16::MAX {
        assert(a.wrapping_sub(t) as int == a - t + wraps(-1));
    } else if a - t < i16::MIN {
        assert(a.wrapping_sub(t) as int == a - t + wraps(1));
    } else {
        assert(a.wrapping_sub(t) as int == a - t + wraps(0));
    }
    if a + t > i16::MAX {
        assert(a.wrapping_add(t) as int == a + t + wraps(-1));
    } else if a + t < i16::MIN {
        assert(a.wrapping_add(t) as int == a + t + wraps(1));
    } else {
        assert(a.wrapping_add(t) as int == a + t + wraps(0));
    }
}

/// One heat exchange keeps the total temperature modulo 2^16.
proof fn lemma_exchange_heat(g: Seq<Option<Particle>>, x: int, y: int, nx: int, ny: int, t0: i16, c0: i16)
    requires
        g.len() == n_cells(),
        in_grid(x, y),
        at(g, x, y) is Some,
        (x, y) != (nx, ny),
    ensures
        congruent_heat(heat(exchange(g, x, y, nx, ny, t0, c0)), heat(g)),
{
    if in_grid(nx, ny) && at(g, nx, ny) is Some {
        lemma_cell_index(x, y, nx, ny);
        let q = at(g, nx, ny).unwrap();
        let t = div_trunc(t0 as int, c0 + conductivity_of(q.ptype)) as i16;
        let me = at(g, x, y).unwrap();
        let a = Some(with_temperature(me, me.temperature.wrapping_sub(t)));
        let g1 = put(g, x, y, a);
        let b = Some(with_temperature(q, q.temperature.wrapping_add(t)));
        lemma_heat_update(g, cell_index(x, y), a);
        lemma_heat_update(g1, cell_index(nx, ny), b);
        lemma_wrap_i16(me.temperature, t);
        lemma_wrap_i16(q.temperature, t);
        let k1 = choose|k: int| me.temperature.wrapping_sub(t) as int == me.temperature - t + wraps(k);
        let k2 = choose|k: int| q.temperature.wrapping_add(t) as int == q.temperature + t + wraps(k);
        assert(heat(put(g1, nx, ny, b)) == heat(g) + wraps((k1 + k2)));
    } else {
        assert(heat(g) == heat(g) + wraps(0));
    }
}

/// The exchanges of one particle change temperatures only and keep the
/// total temperature modulo 2^16.
proof fn lemma_exchange_at(snap: Seq<Option<Particle>>, g: Seq<Option<Particle>>, x: int, y: int)
    requires
        snap.len() == n_cells(),
        same_but_heat_grid(snap, g),
        in_grid(x, y),
    ensures
        same_but_heat_grid(snap, exchange_at(snap, g, x, y)),
        congruent_heat(heat(exchange_at(snap, g, x, y)), heat(g)),
{
    lemma_coords(x, y);
    match at(snap, x, y) {
        Some(p) => {
            let c = conductivity_of(p.ptype);
            let t = p.temperature;
            assert(same_but_heat(snap[cell_index(x, y)], g[cell_index(x, y)]));
            let g1 = exchange(g, x, y, x, y + 1, t, c);
            lemma_exchange_shape(g, x, y, x, y + 1, t, c);
            lemma_exchange_heat(g, x, y, x, y + 1, t, c);
            lemma_heat_trans(snap, g, g1);
            assert(same_but_heat(snap[cell_index(x, y)], g1[cell_index(x, y)]));
            let g2 = exchange(g1, x, y, x + 1, y, t, c);
            lemma_exchange_shape(g1, x, y, x + 1, y, t, c);
            lemma_exchange_heat(g1, x, y, x + 1, y, t, c);
            lemma_heat_trans(snap, g1, g2);
            assert(same_but_heat(snap[cell_index(x, y)], g2[cell_index(x, y)]));
            let g3 = exchange(g2, x, y, x, y - 1, t, c);
            lemma_exchange_shape(g2, x, y, x, y - 1, t, c);
            lemma_exchange_heat(g2, x, y, x, y - 1, t, c);
            lemma_heat_trans(snap, g2, g3);
            assert(same_but_heat(snap[cell_index(x, y)], g3[cell_index(x, y)]));
            let g4 = exchange(g3, x, y, x - 1, y, t, c);
            lemma_exchange_shape(g3, x, y, x - 1, y, t, c);
            lemma_exchange_heat(g3, x, y, x - 1, y, t, c);
            lemma_heat_trans(snap, g3, g4);
            let k1 = choose|k: int| heat(g1) == heat(g) + wraps(k);
            let k2 = choose|k: int| heat(g2) == heat(g1) + wraps(k);
            let k3 = choose|k: int| heat(g3) == heat(g2) + wraps(k);
            let k4 = choose|k: int| heat(g4) == heat(g3) + wraps(k);
            assert(heat(g4) == heat(g) + wraps((k1 + k2 + k3 + k4)));
        },
        None => {
            assert(heat(g) == heat(g) + wraps(0));
        },
    }
}

/// The temperature pass over the first `i` cells changes temperatures only
/// and keeps the total temperature modulo 2^16.
proof fn lemma_exchanged(snap: Seq<Option<Particle>>, i: int)
    requires
        snap.len() == n_cells(),
        0 <= i <= n_cells(),
    ensures
        same_but_heat_grid(snap, exchanged(snap, i)),
        congruent_heat(heat(exchanged(snap, i)), heat(snap)),
    decreases i,
{
    if i == 0 {
        assert forall|j: int| 0 <= j < snap.len() implies #[trigger] same_but_heat(snap[j], snap[j]) by {
            match snap[j] {
                Some(p) => { assert(p == with_temperature(p, p.temperature)); },
                None => {},
            }
        }
        assert(heat(snap) == heat(snap) + wraps(0));
    } else {
        lemma_exchanged(snap, i - 1);
        crate::sandbox::lemma_index_coords(i - 1);
        let prev = exchanged(snap, i - 1);
        lemma_exchange_at(snap, prev, (i - 1) / (SANDBOX_HEIGHT as int), (i - 1) % (SANDBOX_HEIGHT as int));
        let k1 = choose|k: int| heat(prev) == heat(snap) + wraps(k);
        let k2 = choose|k: int| heat(exchanged(snap, i)) == heat(prev) + wraps(k);
        assert(heat(exchanged(snap, i)) == heat(snap) + wraps((k1 + k2)));
    }
}

/// Heat exchange moves heat between particles and does nothing else: after
/// the temperature pass every cell holds the same particle as before (or is
/// still empty) but for its temperature, and the total temperature of the
/// grid is unchanged modulo 2^16 (temperatures wrap at the bounds of `i16`).
pub proof fn lemma_temperature_pass_conserves(g: Seq<Option<Particle>>)
    requires
        g.len() == n_cells(),
    ensures
        same_but_heat_grid(g, exchanged(g, n_cells())),
        congruent_heat(heat(exchanged(g, n_cells())), heat(g)),
{
    lemma_exchanged(g, n_cells());
}

/// Whether one exchange (see `exchange`) stays within the range of `i16`:
/// neither the particle giving heat nor the one taking it wraps.
pub open spec fn exchange_fits(g: Seq<Option<Particle>>, x: int, y: int, nx: int, ny: int, t0: i16, c0: i16) -> bool {
    in_grid(nx, ny) && at(g, nx, ny) is Some ==> {
        let q = at(g, nx, ny).unwrap();
        let t = div_trunc(t0 as int, c0 + conductivity_of(q.ptype)) as i16;
        let me = at(g, x, y).unwrap();
        &&& i16::MIN <= me.temperature - t <= i16::MAX
        &&& i16::MIN <= q.temperature + t <= i16::MAX
    }
}

/// Whether the four exchanges of the particle at `(x, y)` (see
/// `exchange_at`) all stay within the range of `i16`.
pub open spec fn exchange_at_fits(snap: Seq<Option<Particle>>, g: Seq<Option<Particle>>, x: int, y: int) -> bool {
    match at(snap, x, y) {
        Some(p) => {
            let c = conductivity_of(p.ptype);
            let t = p.temperature;
            let g1 = exchange(g, x, y, x, y + 1, t, c);
            let g2 = exchange(g1, x, y, x + 1, y, t, c);
            let g3 = exchange(g2, x, y, x, y - 1, t, c);
            &&& exchange_fits(g, x, y, x, y + 1, t, c)
            &&& exchange_fits(g1, x, y, x + 1, y, t, c)
            &&& exchange_fits(g2, x, y, x, y - 1, t, c)
            &&& exchange_fits(g3, x, y, x - 1, y, t, c)
        },
        None => true,
    }
}

/// Whether no exchange of the temperature pass over the first `i` cells
/// wraps (see `exchange_at_fits`).
pub open spec fn pass_fits(snap: Seq<Option<Particle>>, i: int) -> bool
    decreases i,
{
    if i <= 0 {
        true
    } else {
        pass_fits(snap, i - 1)
            && exchange_at_fits(snap, exchanged(snap, i - 1), (i - 1) / (SANDBOX_HEIGHT as int), (i - 1) % (SANDBOX_HEIGHT as int))
    }
}

/// An exchange that does not wrap keeps the total temperature exactly.
proof fn lemma_exchange_heat_exact(g: Seq<Option<Particle>>, x: int, y: int, nx: int, ny: int, t0: i16, c0: i16)
    requires
        g.len() == n_cells(),
        in_grid(x, y),
        at(g, x, y) is Some,
        (x, y) != (nx, ny),
        exchange_fits(g, x, y, nx, ny, t0, c0),
    ensures
        heat(exchange(g, x, y, nx, ny, t0, c0)) == heat(g),
{
    if in_grid(nx, ny) && at(g, nx, ny) is Some {
        lemma_cell_index(x, y, nx, ny);
        let q = at(g, nx, ny).unwrap();
        let t = div_trunc(t0 as int, c0 + conductivity_of(q.ptype)) as i16;
        let me = at(g, x, y).unwrap();
        let a = Some(with_temperature(me, me.temperature.wrapping_sub(t)));
        let g1 = put(g, x, y, a);
        let b = Some(with_temperature(q, q.temperature.wrapping_add(t)));
        assert(me.temperature.wrapping_sub(t) as int == me.temperature - t);
        assert(q.temperature.wrapping_add(t) as int == q.temperature + t);
        lemma_heat_update(g, cell_index(x, y), a);
        lemma_heat_update(g1, cell_index(nx, ny), b);
    }
}

/// The exchanges of one particle, when none wraps, keep the total exactly.
proof fn lemma_exchange_at_exact(snap: Seq<Option<Particle>>, g: Seq<Option<Particle>>, x: int, y: int)
    requires
        snap.len() == n_cells(),
        same_but_heat_grid(snap, g),
        in_grid(x, y),
        exchange_at_fits(snap, g, x, y),
    ensures
        heat(exchange_at(snap, g, x, y)) == heat(g),
{
    lemma_coords(x, y);
    match at(snap, x, y) {
        Some(p) => {
            let c = conductivity_of(p.ptype);
            let t = p.temperature;
            assert(same_but_heat(snap[cell_index(x, y)], g[cell_index(x, y)]));
            let g1 = exchange(g, x, y, x, y + 1, t, c);
            lemma_exchange_shape(g, x, y, x, y + 1, t, c);
            lemma_exchange_heat_exact(g, x, y, x, y + 1, t, c);
            lemma_heat_trans(snap, g, g1);
            assert(same_but_heat(snap[cell_index(x, y)], g1[cell_index(x, y)]));
            let g2 = exchange(g1, x, y, x + 1, y, t, c);
            lemma_exchange_shape(g1, x, y, x + 1, y, t, c);
            lemma_exchange_heat_exact(g1, x, y, x + 1, y, t, c);
            lemma_heat_trans(snap, g1, g2);
            assert(same_but_heat(snap[cell_index(x, y)], g2[cell_index(x, y)]));
            let g3 = exchange(g2, x, y, x, y - 1, t, c);
            lemma_exchange_shape(g2, x, y, x, y - 1, t, c);
            lemma_exchange_heat_exact(g2, x, y, x, y - 1, t, c);
            lemma_heat_trans(snap, g2, g3);
            assert(same_but_heat(snap[cell_index(x, y)], g3[cell_index(x, y)]));
            lemma_exchange_heat_exact(g3, x, y, x - 1, y, t, c);
        },
        None => {},
    }
}

/// The temperature pass over the first `i` cells, when no exchange wraps,
/// keeps the total exactly.
proof fn lemma_exchanged_exact(snap: Seq<Option<Particle>>, i: int)
    requires
        snap.len() == n_cells(),
        0 <= i <= n_cells(),
        pass_fits(snap, i),
    ensures
        heat(exchanged(snap, i)) == heat(snap),
    decreases i,
{
    if i > 0 {
        lemma_exchanged_exact(snap, i - 1);
        lemma_exchanged(snap, i - 1);
        crate::sandbox::lemma_index_coords(i - 1);
        lemma_exchange_at_exact(snap, exchanged(snap, i - 1), (i - 1) / (SANDBOX_HEIGHT as int), (i - 1) % (SANDBOX_HEIGHT as int));
    }
}

/// Heat is conserved exactly when nothing overflows: if no exchange of the
/// temperature pass leaves the range of `i16` (see `pass_fits`), the sum of
/// the temperatures of all particles, as whole numbers, is the same after
/// the pass as before it.
pub proof fn lemma_temperature_pass_keeps_heat(g: Seq<Option<Particle>>)
    requires
        g.len() == n_cells(),
        pass_fits(g, n_cells()),
    ensures
        heat(exchanged(g, n_cells())) == heat(g),
{
    lemma_exchanged_exact(g, n_cells());
}

/// The temperature pass over storage positions `i` up to `j` changes
/// nothing when all those cells are empty.
proof fn lemma_exchanged_skip(snap: Seq<Option<Particle>>, i: int, j: int)
    requires
        snap.len() == n_cells(),
        0 <= i <= j <= n_cells(),
        forall|k: int| i <= k < j ==> (#[trigger] snap[k]) is None,
    ensures
        exchanged(snap, j) == exchanged(snap, i),
    decreases j - i,
{
    if j > i {
        lemma_exchanged_skip(snap, i, j - 1);
        lemma_index_coords(j - 1);
        assert(snap[j - 1] is None);
    }
}

/// An exchange with a neighbour that is off the grid or empty does nothing.
proof fn lemma_exchange_none(g: Seq<Option<Particle>>, x: int, y: int, nx: int, ny: int, t0: i16, c0: i16)
    requires
        !in_grid(nx, ny) || at(g, nx, ny) is None,
    ensures
        exchange(g, x, y, nx, ny, t0, c0) == g,
{
}

/// The grid `g`, whose only particles are at `(ax, ay)` and `(bx, by)`,
/// with those two cells set to `ca` and `cb`: the other cells stay empty.
proof fn lemma_two_cells(g: Seq<Option<Particle>>, ax: int, ay: int, bx: int, by: int, ca: Option<Particle>, cb: Option<Particle>)
    requires
        g.len() == n_cells(),
        in_grid(ax, ay),
        in_grid(bx, by),
        !(ax == bx && ay == by),
        forall|cx: int, cy: int| in_grid(cx, cy) && !(cx == ax && cy == ay) && !(cx == bx && cy == by)
            ==> #[trigger] at(g, cx, cy) is None,
    ensures
        ({
            let h = put(put(g, ax, ay, ca), bx, by, cb);
            &&& h.len() == n_cells()
            &&& at(h, ax, ay) == ca
            &&& at(h, bx, by) == cb
            &&& forall|cx: int, cy: int| in_grid(cx, cy) && !(cx == ax && cy == ay) && !(cx == bx && cy == by)
                ==> #[trigger] at(h, cx, cy) is None
        }),
{
    lemma_coords(ax, ay);
    lemma_coords(bx, by);
    lemma_cell_index(ax, ay, bx, by);
    let h = put(put(g, ax, ay, ca), bx, by, cb);
    assert forall|cx: int, cy: int| in_grid(cx, cy) && !(cx == ax && cy == ay) && !(cx == bx && cy == by)
        implies #[trigger] at(h, cx, cy) is None by {
        lemma_cell_index(cx, cy, ax, ay);
        lemma_cell_index(cx, cy, bx, by);
        assert(at(g, cx, cy) is None);
        assert(h[cell_index(cx, cy)] == g[cell_index(cx, cy)]);
    }
}

/// The two particles of `lemma_pair_exchanges_heat`, each at its start
/// temperature changed by `da` and `db` (wrapping).
pub open spec fn pair_with(g: Seq<Option<Particle>>, ax: int, ay: int, bx: int, by: int, da: i16, db: i16) -> Seq<Option<Particle>> {
    let pa = at(g, ax, ay).unwrap();
    let pb = at(g, bx, by).unwrap();
    put(put(g, ax, ay, Some(with_temperature(pa, da))), bx, by, Some(with_temperature(pb, db)))
}

/// The requirements shared by the steps of `lemma_pair_exchanges_heat`.
pub open spec fn lone_pair(g: Seq<Option<Particle>>, ax: int, ay: int, bx: int, by: int) -> bool {
    &&& g.len() == n_cells()
    &&& in_grid(ax, ay)
    &&& in_grid(bx, by)
    &&& ((bx == ax + 1 && by == ay) || (bx == ax && by == ay + 1))
    &&& at(g, ax, ay) is Some
    &&& at(g, bx, by) is Some
    &&& forall|cx: int, cy: int| in_grid(cx, cy) && !(cx == ax && cy == ay) && !(cx == bx && cy == by)
            ==> #[trigger] at(g, cx, cy) is None
}

/// The exchanges of the first particle of a lone pair.
proof fn lemma_pair_first(g: Seq<Option<Particle>>, ax: int, ay: int, bx: int, by: int)
    requires
        lone_pair(g, ax, ay, bx, by),
    ensures
        ({
            let pa = at(g, ax, ay).unwrap();
            let pb = at(g, bx, by).unwrap();
            let s = div_trunc(pa.temperature as int, conductivity_of(pa.ptype) + conductivity_of(pb.ptype)) as i16;
            exchange_at(g, g, ax, ay)
                == pair_with(g, ax, ay, bx, by, pa.temperature.wrapping_sub(s), pb.temperature.wrapping_add(s))
        }),
{
    let pa = at(g, ax, ay).unwrap();
    let pb = at(g, bx, by).unwrap();
    let ta = pa.temperature;
    let ca = conductivity_of(pa.ptype);
    let s = div_trunc(ta as int, ca + conductivity_of(pb.ptype)) as i16;
    let g1 = pair_with(g, ax, ay, bx, by, ta.wrapping_sub(s), pb.temperature.wrapping_add(s));
    lemma_two_cells(g, ax, ay, bx, by, Some(with_temperature(pa, ta.wrapping_sub(s))),
        Some(with_temperature(pb, pb.temperature.wrapping_add(s))));
    if bx == ax + 1 {
        lemma_exchange_none(g, ax, ay, ax, ay + 1, ta, ca);
        assert(exchange(g, ax, ay, ax + 1, ay, ta, ca) == g1);
        lemma_exchange_none(g1, ax, ay, ax, ay - 1, ta, ca);
        lemma_exchange_none(g1, ax, ay, ax - 1, ay, ta, ca);
    } else {
        assert(exchange(g, ax, ay, ax, ay + 1, ta, ca) == g1);
        lemma_exchange_none(g1, ax, ay, ax + 1, ay, ta, ca);
        lemma_exchange_none(g1, ax, ay, ax, ay - 1, ta, ca);
        lemma_exchange_none(g1, ax, ay, ax - 1, ay, ta, ca);
    }
}

/// The exchanges of the second particle of a lone pair, after the first's.
proof fn lemma_pair_second(g: Seq<Option<Particle>>, ax: int, ay: int, bx: int, by: int, da: i16, db: i16)
    requires
        lone_pair(g, ax, ay, bx, by),
    ensures
        ({
            let pa = at(g, ax, ay).unwrap();
            let pb = at(g, bx, by).unwrap();
            let r = div_trunc(pb.temperature as int, conductivity_of(pb.ptype) + conductivity_of(pa.ptype)) as i16;
            exchange_at(g, pair_with(g, ax, ay, bx, by, da, db), bx, by)
                == pair_with(g, ax, ay, bx, by, da.wrapping_add(r), db.wrapping_sub(r))
        }),
{
    let pa = at(g, ax, ay).unwrap();
    let pb = at(g, bx, by).unwrap();
    let tb = pb.temperature;
    let cb = conductivity_of(pb.ptype);
    let r = div_trunc(tb as int, cb + conductivity_of(pa.ptype)) as i16;
    let g1 = pair_with(g, ax, ay, bx, by, da, db);
    let g2 = pair_with(g, ax, ay, bx, by, da.wrapping_add(r), db.wrapping_sub(r));
    lemma_two_cells(g, ax, ay, bx, by, Some(with_temperature(pa, da)), Some(with_temperature(pb, db)));
    lemma_two_cells(g, ax, ay, bx, by, Some(with_temperature(pa, da.wrapping_add(r))), Some(with_temperature(pb, db.wrapping_sub(r))));
    lemma_coords(ax, ay);
    lemma_coords(bx, by);
    lemma_cell_index(ax, ay, bx, by);
    assert(at(g1, bx, by) == Some(with_temperature(pb, db)));
    assert(at(g1, ax, ay) == Some(with_temperature(pa, da)));
    let h = put(put(g1, bx, by, Some(with_temperature(with_temperature(pb, db), db.wrapping_sub(r)))), ax, ay,
        Some(with_temperature(with_temperature(pa, da), da.wrapping_add(r))));
    assert(h =~= g2);
    lemma_exchange_none(g1, bx, by, bx, by + 1, tb, cb);
    lemma_exchange_none(g1, bx, by, bx + 1, by, tb, cb);
    if bx == ax + 1 {
        lemma_exchange_none(g1, bx, by, bx, by - 1, tb, cb);
        assert(exchange(g1, bx, by, bx - 1, by, tb, cb) == h);
    } else {
        assert(exchange(g1, bx, by, bx, by - 1, tb, cb) == h);
        lemma_exchange_none(g2, bx, by, bx - 1, by, tb, cb);
    }
}

/// Heat flows both ways between two neighbours: when the grid holds just
/// two particles, side by side or one above the other, the temperature
/// pass sends `t_a / (c_a + c_b)` from the first (the one on the left, or
/// above) to the second and `t_b / (c_a + c_b)` back, with `t` their
/// temperatures, `c` their conductivities and the quotients rounded toward
/// zero (no temperature wraps at these magnitudes); nothing else changes.
pub proof fn lemma_pair_exchanges_heat(g: Seq<Option<Particle>>, ax: int, ay: int, bx: int, by: int)
    requires
        g.len() == n_cells(),
        in_grid(ax, ay),
        in_grid(bx, by),
        (bx == ax + 1 && by == ay) || (bx == ax && by == ay + 1),
        at(g, ax, ay) is Some,
        at(g, bx, by) is Some,
        forall|cx: int, cy: int| in_grid(cx, cy) && !(cx == ax && cy == ay) && !(cx == bx && cy == by)
            ==> #[trigger] at(g, cx, cy) is None,
        -16000 <= at(g, ax, ay).unwrap().temperature <= 16000,
        -16000 <= at(g, bx, by).unwrap().temperature <= 16000,
    ensures
        ({
            let pa = at(g, ax, ay).unwrap();
            let pb = at(g, bx, by).unwrap();
            let c = conductivity_of(pa.ptype) + conductivity_of(pb.ptype);
            let s = div_trunc(pa.temperature as int, c);
            let r = div_trunc(pb.temperature as int, c);
            let new = exchanged(g, n_cells());
            &&& new.len() == n_cells()
            &&& at(new, ax, ay) == Some(Particle { temperature: (pa.temperature - s + r) as i16, ..pa })
            &&& at(new, bx, by) == Some(Particle { temperature: (pb.temperature + s - r) as i16, ..pb })
            &&& forall|cx: int, cy: int| in_grid(cx, cy) && !(cx == ax && cy == ay) && !(cx == bx && cy == by)
                ==> #[trigger] at(new, cx, cy) is None
        }),
{
    let pa = at(g, ax, ay).unwrap();
    let pb = at(g, bx, by).unwrap();
    let ta = pa.temperature;
    let tb = pb.temperature;
    let c = conductivity_of(pa.ptype) + conductivity_of(pb.ptype);
    let s = div_trunc(ta as int, c) as i16;
    let r = div_trunc(tb as int, conductivity_of(pb.ptype) + conductivity_of(pa.ptype)) as i16;
    let da = ta.wrapping_sub(s);
    let db = tb.wrapping_add(s);
    lemma_pair_pass(g, ax, ay, bx, by);
    assert(s as int == div_trunc(ta as int, c));
    assert(r as int == div_trunc(tb as int, c));
    assert(da.wrapping_add(r) as int == ta - s + r);
    assert(db.wrapping_sub(r) as int == tb + s - r);
    lemma_two_cells(g, ax, ay, bx, by, Some(with_temperature(pa, da.wrapping_add(r))), Some(with_temperature(pb, db.wrapping_sub(r))));
}

/// In a grid that holds only a lone pair, every storage position but the
/// pair's two is empty, and the first comes before the second.
proof fn lemma_lone_pair_storage(g: Seq<Option<Particle>>, ax: int, ay: int, bx: int, by: int)
    requires
        lone_pair(g, ax, ay, bx, by),
    ensures
        0 <= cell_index(ax, ay) < cell_index(bx, by) < n_cells(),
        forall|k: int| 0 <= k < n_cells() && k != cell_index(ax, ay) && k != cell_index(bx, by)
            ==> (#[trigger] g[k]) is None,
{
    lemma_coords(ax, ay);
    lemma_coords(bx, by);
    let ia = cell_index(ax, ay);
    let ib = cell_index(bx, by);
    assert forall|k: int| 0 <= k < n_cells() && k != ia && k != ib implies (#[trigger] g[k]) is None by {
        lemma_index_coords(k);
        let cx = k / (SANDBOX_HEIGHT as int);
        let cy = k % (SANDBOX_HEIGHT as int);
        assert(at(g, cx, cy) is None);
    }
}

/// The whole temperature pass over a lone pair, as the two particles'
/// exchanges composed.
proof fn lemma_pair_pass(g: Seq<Option<Particle>>, ax: int, ay: int, bx: int, by: int)
    requires
        lone_pair(g, ax, ay, bx, by),
    ensures
        ({
            let pa = at(g, ax, ay).unwrap();
            let pb = at(g, bx, by).unwrap();
            let s = div_trunc(pa.temperature as int, conductivity_of(pa.ptype) + conductivity_of(pb.ptype)) as i16;
            let r = div_trunc(pb.temperature as int, conductivity_of(pb.ptype) + conductivity_of(pa.ptype)) as i16;
            let da = pa.temperature.wrapping_sub(s);
            let db = pb.temperature.wrapping_add(s);
            exchanged(g, n_cells()) == pair_with(g, ax, ay, bx, by, da.wrapping_add(r), db.wrapping_sub(r))
        }),
{
    let pa = at(g, ax, ay).unwrap();
    let pb = at(g, bx, by).unwrap();
    let s = div_trunc(pa.temperature as int, conductivity_of(pa.ptype) + conductivity_of(pb.ptype)) as i16;
    let r = div_trunc(pb.temperature as int, conductivity_of(pb.ptype) + conductivity_of(pa.ptype)) as i16;
    let da = pa.temperature.wrapping_sub(s);
    let db = pb.temperature.wrapping_add(s);
    let ia = cell_index(ax, ay);
    let ib = cell_index(bx, by);
    lemma_lone_pair_storage(g, ax, ay, bx, by);
    lemma_coords(ax, ay);
    lemma_coords(bx, by);
    lemma_exchanged_skip(g, 0, ia);
    assert(exchanged(g, ia + 1) == exchange_at(g, exchanged(g, ia), ax, ay));
    lemma_pair_first(g, ax, ay, bx, by);
    let g1 = pair_with(g, ax, ay, bx, by, da, db);
    assert(exchanged(g, ia + 1) == g1);
    lemma_exchanged_skip(g, ia + 1, ib);
    assert(exchanged(g, ib + 1) == exchange_at(g, exchanged(g, ib), bx, by));
    lemma_pair_second(g, ax, ay, bx, by, da, db);
    lemma_exchanged_skip(g, ib + 1, n_cells());
}

} // verus!
