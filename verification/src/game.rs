//! The game's own state and decisions: stepping the simulation at a fixed
//! rate, pausing, the brush, and drawing particles along the cursor's path.

use vstd::prelude::*;
use crate::particle::{Particle, ParticleType, fresh_particle};
use crate::sandbox::{Sandbox, SANDBOX_HEIGHT, SANDBOX_WIDTH, at, in_grid, n_cells};
use crate::simulation::{advanced, stepped_once};

verus! {

/// The time one simulation step stands for, in nanoseconds (60 steps a second).
pub const TARGET_TIME_PER_UPDATE: u64 = 16666670;

/// The game: the sandbox, the time not yet simulated, pausing, and the
/// particle placement settings.
pub struct Game {
    pub sandbox: Sandbox,
    /// Time accumulated since the last simulation step, in nanoseconds.
    pub frame_time: u64,
    pub is_paused: bool,
    pub should_update_once: bool,
    /// The kind the brush places; `None` is the delete tool.
    pub selected_particle: Option<ParticleType>,
    pub brush_size: u8,
}

/// How many simulation steps `update` runs for `ticks` elapsed step times:
/// all of them unless paused, else one if a single step was asked for.
pub open spec fn steps_run(paused: bool, once: bool, ticks: int) -> nat {
    if ticks <= 0 {
        0
    } else if !paused {
        ticks as nat
    } else if once {
        1
    } else {
        0
    }
}

impl Game {
    /// A new game: an empty sandbox, nothing to simulate, running, placing
    /// Sand with a brush of 3.
    pub fn new() -> (game: Game)
        ensures
            game.sandbox.wf(),
            game.sandbox.cells@ == Seq::new(n_cells() as nat, |i: int| None::<Particle>),
            game.frame_time == 0,
            !game.is_paused,
            !game.should_update_once,
            game.selected_particle == Some(ParticleType::Sand),
            game.brush_size == 3,
    {
        Game {
            sandbox: Sandbox::new(),
            frame_time: 0,
            is_paused: false,
            should_update_once: false,
            selected_particle: Some(ParticleType::Sand),
            brush_size: 3,
        }
    }

    /// Runs one simulation step per whole step time accumulated in
    /// `frame_time` (see `steps_run`), keeping the remainder.
    pub fn update(&mut self)
        requires
            old(self).sandbox.wf(),
        ensures
            final(self).sandbox.wf(),
            final(self).frame_time == old(self).frame_time % TARGET_TIME_PER_UPDATE,
            final(self).is_paused == old(self).is_paused,
            final(self).should_update_once
                == (old(self).should_update_once && old(self).frame_time < TARGET_TIME_PER_UPDATE),
            final(self).selected_particle == old(self).selected_particle,
            final(self).brush_size == old(self).brush_size,
            advanced(old(self).sandbox, final(self).sandbox,
                steps_run(old(self).is_paused, old(self).should_update_once,
                    (old(self).frame_time / TARGET_TIME_PER_UPDATE) as int)),
    {
        let ghost mut trace: Seq<Sandbox> = seq![self.sandbox];
        let ghost mut ticks: int = 0;
        while self.frame_time >= TARGET_TIME_PER_UPDATE
            invariant
                self.sandbox.wf(),
                self.frame_time + ticks * TARGET_TIME_PER_UPDATE == old(self).frame_time,
                ticks >= 0,
                self.is_paused == old(self).is_paused,
                self.should_update_once == (old(self).should_update_once && ticks == 0),
                self.selected_particle == old(self).selected_particle,
                self.brush_size == old(self).brush_size,
                trace.len() == steps_run(old(self).is_paused, old(self).should_update_once, ticks) + 1,
                trace[0] == old(self).sandbox,
                trace.last() == self.sandbox,
                forall|i: int| 0 <= i < trace.len() - 1 ==> #[trigger] stepped_once(trace[i], trace[i + 1]),
            decreases self.frame_time,
        {
            if !self.is_paused || self.should_update_once {
                self.should_update_once = false;
                let ghost before = self.sandbox;
                self.sandbox.update();
                proof {
                    assert(stepped_once(before, self.sandbox));
                    let old_trace = trace;
                    trace = trace.push(self.sandbox);
                    assert forall|i: int| 0 <= i < trace.len() - 1 implies #[trigger] stepped_once(trace[i], trace[i + 1]) by {
                        if i < old_trace.len() - 1 {
                            assert(trace[i] == old_trace[i]);
                            assert(trace[i + 1] == old_trace[i + 1]);
                        }
                    }
                }
            }
            self.frame_time = self.frame_time - TARGET_TIME_PER_UPDATE;
            proof { ticks = ticks + 1; }
        }
        proof {
            vstd::arithmetic::div_mod::lemma_fundamental_div_mod_converse(
                old(self).frame_time as int, TARGET_TIME_PER_UPDATE as int, ticks, self.frame_time as int);
        }
    }
}

/// The invariant of the line walk: `u` of `dx` steps taken along x, `v` of
/// `dd` along y, and the error term of Bresenham's algorithm.
pub open spec fn walk_inv(dx: int, dd: int, u: int, v: int, err: int) -> bool {
    &&& 0 <= u <= dx
    &&& 0 <= v <= dd
    &&& err == dx - dd + dx * v - dd * u
}

/// The line walk after one step from `(u, v, err)`: a step along x when
/// twice the error is at least `-dd`, and (judged on the same error) a step
/// along y when twice the error is at most `dx`.
pub open spec fn walk_next(dx: int, dd: int, u: int, v: int, err: int) -> (int, int, int) {
    let e2 = 2 * err;
    let (u1, err1) = if e2 >= -dd { (u + 1, err - dd) } else { (u, err) };
    let (v1, err2) = if e2 <= dx { (v + 1, err1 + dx) } else { (v, err1) };
    (u1, v1, err2)
}

/// A step of the walk keeps its invariant, moves at least one way, and
/// never passes the end.
pub proof fn lemma_walk_step(dx: int, dd: int, u: int, v: int, err: int)
    requires
        walk_inv(dx, dd, u, v, err),
        !(u == dx && v == dd),
    ensures
        ({
            let (u1, v1, err1) = walk_next(dx, dd, u, v, err);
            &&& walk_inv(dx, dd, u1, v1, err1)
            &&& (dx - u1) + (dd - v1) < (dx - u) + (dd - v)
            &&& u <= u1 <= u + 1
            &&& v <= v1 <= v + 1
        }),
{
    let e2 = 2 * err;
    if u == dx {
        assert(v < dd);
        assert(err <= -dd) by (nonlinear_arith)
            requires err == dx - dd + dx * v - dd * u, u == dx, 0 <= v, v + 1 <= dd, 0 <= dx;
    }
    if v == dd {
        assert(u < dx);
        assert(err >= dx) by (nonlinear_arith)
            requires err == dx - dd + dx * v - dd * u, v == dd, 0 <= u, u + 1 <= dx, 0 <= dd;
    }
    assert(dx * (v + 1) == dx * v + dx) by (nonlinear_arith);
    assert(dd * (u + 1) == dd * u + dd) by (nonlinear_arith);
}

/// The cells the line walk from `(x0, y0)` visits, from the state
/// `(u, v, err)` on: `(x0 + sx * u, y0 + sy * v)` and the rest of the walk,
/// ending at `u == dx`, `v == dd`.
pub open spec fn walk_points(x0: int, y0: int, sx: int, sy: int, dx: int, dd: int, u: int, v: int, err: int) -> Seq<(int, int)>
    decreases (dx - u) + (dd - v) when walk_inv(dx, dd, u, v, err)
{
    let here = (x0 + sx * u, y0 + sy * v);
    if u == dx && v == dd {
        seq![here]
    } else {
        proof { lemma_walk_step(dx, dd, u, v, err); }
        let (u1, v1, err1) = walk_next(dx, dd, u, v, err);
        seq![here] + walk_points(x0, y0, sx, sy, dx, dd, u1, v1, err1)
    }
}

/// The cells Bresenham's line from `(x0, y0)` to `(x1, y1)` visits, in order.
pub open spec fn line_points(x0: int, y0: int, x1: int, y1: int) -> Seq<(int, int)> {
    let dx = if x1 >= x0 { x1 - x0 } else { x0 - x1 };
    let dd = if y1 >= y0 { y1 - y0 } else { y0 - y1 };
    let sx = if x0 < x1 { 1int } else { -1int };
    let sy = if y0 < y1 { 1int } else { -1int };
    walk_points(x0, y0, sx, sy, dx, dd, 0, 0, dx - dd)
}

/// Whether a brush of `bx` by `by` cells with its top-left corner at `p`
/// covers cell `(cx, cy)`.
pub open spec fn covers(p: (int, int), bx: int, by: int, cx: int, cy: int) -> bool {
    p.0 <= cx < p.0 + bx && p.1 <= cy < p.1 + by
}

/// Whether the brush, put down at each of `pts`, covers cell `(cx, cy)`.
pub open spec fn brushed(pts: Seq<(int, int)>, bx: int, by: int, cx: int, cy: int) -> bool {
    exists|k: int| 0 <= k < pts.len() && #[trigger] covers(pts[k], bx, by, cx, cy)
}

/// What painting with `selected` does to a cell: a covered cell is emptied by
/// the delete tool (`None`), and an empty covered cell gets a new particle of
/// the selected kind (an occupied one is left alone); uncovered cells stay.
pub open spec fn painted(before: Option<Particle>, after: Option<Particle>, selected: Option<ParticleType>, covered: bool) -> bool {
    if !covered {
        after == before
    } else {
        match selected {
            None => after is None,
            Some(t) => if before is Some { after == before } else { after matches Some(q) && fresh_particle(q, t) },
        }
    }
}

/// `new` is `g` painted with the brush put down at each of `pts`.
pub open spec fn paint_ok(g: Seq<Option<Particle>>, new: Seq<Option<Particle>>, pts: Seq<(int, int)>, bx: int, by: int, selected: Option<ParticleType>) -> bool {
    &&& new.len() == g.len()
    &&& forall|cx: int, cy: int| in_grid(cx, cy) ==>
        painted(at(g, cx, cy), #[trigger] at(new, cx, cy), selected, brushed(pts, bx, by, cx, cy))
}

/// Painting twice is painting once with both brush positions.
proof fn lemma_paint_twice(
    g: Seq<Option<Particle>>, mid: Seq<Option<Particle>>, new: Seq<Option<Particle>>,
    pts: Seq<(int, int)>, p: (int, int), bx: int, by: int, selected: Option<ParticleType>,
)
    requires
        paint_ok(g, mid, pts, bx, by, selected),
        paint_ok(mid, new, seq![p], bx, by, selected),
    ensures
        paint_ok(g, new, pts.push(p), bx, by, selected),
{
    let all = pts.push(p);
    assert forall|cx: int, cy: int| in_grid(cx, cy) implies
        painted(at(g, cx, cy), #[trigger] at(new, cx, cy), selected, brushed(all, bx, by, cx, cy)) by {
        let c1 = brushed(pts, bx, by, cx, cy);
        let c2 = brushed(seq![p], bx, by, cx, cy);
        assert(painted(at(g, cx, cy), at(mid, cx, cy), selected, c1));
        assert(painted(at(mid, cx, cy), at(new, cx, cy), selected, c2));
        if c1 {
            let k = choose|k: int| 0 <= k < pts.len() && #[trigger] covers(pts[k], bx, by, cx, cy);
            assert(all[k] == pts[k]);
        }
        if c2 {
            assert(seq![p][0] == p);
            assert(all[pts.len() as int] == p);
        }
        if brushed(all, bx, by, cx, cy) {
            let k = choose|k: int| 0 <= k < all.len() && #[trigger] covers(all[k], bx, by, cx, cy);
            if k < pts.len() {
                assert(pts[k] == all[k]);
            } else {
                assert(seq![p][0] == all[k]);
            }
        }
    }
}

impl Game {
    /// Puts the brush (`bx` by `by` cells, top-left corner at `(px, py)`)
    /// down once, with the selected particle (see `painted`).
    fn paint_brush(&mut self, px: usize, py: usize, bx: usize, by: usize)
        requires
            old(self).sandbox.wf(),
            px < 0x100_0000,
            py < 0x100_0000,
            bx <= 255,
            by <= 255,
        ensures
            final(self).sandbox.wf(),
            paint_ok(old(self).sandbox.cells@, final(self).sandbox.cells@, seq![(px as int, py as int)],
                bx as int, by as int, old(self).selected_particle),
            final(self).sandbox.update_counter == old(self).sandbox.update_counter,
            final(self).sandbox.background == old(self).sandbox.background,
            final(self).frame_time == old(self).frame_time,
            final(self).is_paused == old(self).is_paused,
            final(self).should_update_once == old(self).should_update_once,
            final(self).selected_particle == old(self).selected_particle,
            final(self).brush_size == old(self).brush_size,
    {
        let ghost g = self.sandbox.cells@;
        let ghost p = (px as int, py as int);
        let mut x = px;
        while x < px + bx
            invariant
                px <= x <= px + bx,
                px < 0x100_0000,
                py < 0x100_0000,
                bx <= 255,
                by <= 255,
                p == (px as int, py as int),
                g == old(self).sandbox.cells@,
                self.sandbox.wf(),
                self.sandbox.update_counter == old(self).sandbox.update_counter,
                self.sandbox.background == old(self).sandbox.background,
                self.frame_time == old(self).frame_time,
                self.is_paused == old(self).is_paused,
                self.should_update_once == old(self).should_update_once,
                self.selected_particle == old(self).selected_particle,
                self.brush_size == old(self).brush_size,
                forall|cx: int, cy: int| in_grid(cx, cy) ==> painted(at(g, cx, cy), #[trigger] at(self.sandbox.cells@, cx, cy),
                    self.selected_particle, covers(p, (x - px) as int, by as int, cx, cy)),
            decreases px + bx - x,
        {
            let mut y = py;
            while y < py + by
                invariant
                    px <= x < px + bx,
                    py <= y <= py + by,
                    px < 0x100_0000,
                    py < 0x100_0000,
                    bx <= 255,
                    by <= 255,
                    p == (px as int, py as int),
                    g == old(self).sandbox.cells@,
                    self.sandbox.wf(),
                    self.sandbox.update_counter == old(self).sandbox.update_counter,
                    self.sandbox.background == old(self).sandbox.background,
                    self.frame_time == old(self).frame_time,
                    self.is_paused == old(self).is_paused,
                    self.should_update_once == old(self).should_update_once,
                    self.selected_particle == old(self).selected_particle,
                    self.brush_size == old(self).brush_size,
                    forall|cx: int, cy: int| in_grid(cx, cy) ==> painted(at(g, cx, cy), #[trigger] at(self.sandbox.cells@, cx, cy),
                        self.selected_particle,
                        covers(p, (x - px) as int, by as int, cx, cy) || (cx == x && py <= cy < y)),
                decreases py + by - y,
            {
                let ghost cur = self.sandbox.cells@;
                if x < SANDBOX_WIDTH && y < SANDBOX_HEIGHT {
                    match self.selected_particle {
                        Some(selected) => {
                            if self.sandbox.get(x, y).is_none() {
                                let q = Particle::new(selected, &mut self.sandbox.rng);
                                self.sandbox.set(x, y, Some(q));
                            }
                        },
                        None => {
                            self.sandbox.set(x, y, None);
                        },
                    }
                }
                proof {
                    assert forall|cx: int, cy: int| in_grid(cx, cy) implies painted(at(g, cx, cy),
                        #[trigger] at(self.sandbox.cells@, cx, cy), self.selected_particle,
                        covers(p, (x - px) as int, by as int, cx, cy) || (cx == x && py <= cy < y + 1)) by {
                        if in_grid(x as int, y as int) {
                            crate::sandbox::lemma_cell_index(cx, cy, x as int, y as int);
                        }
                        assert(painted(at(g, cx, cy), at(cur, cx, cy), self.selected_particle,
                            covers(p, (x - px) as int, by as int, cx, cy) || (cx == x && py <= cy < y)));
                    }
                }
                y = y + 1;
            }
            proof {
                assert forall|cx: int, cy: int| in_grid(cx, cy) implies painted(at(g, cx, cy),
                    #[trigger] at(self.sandbox.cells@, cx, cy), self.selected_particle,
                    covers(p, (x + 1 - px) as int, by as int, cx, cy)) by {
                    assert(painted(at(g, cx, cy), at(self.sandbox.cells@, cx, cy), self.selected_particle,
                        covers(p, (x - px) as int, by as int, cx, cy) || (cx == x && py <= cy < py + by)));
                }
            }
            x = x + 1;
        }
        proof {
            let pts = seq![p];
            assert forall|cx: int, cy: int| in_grid(cx, cy) implies painted(at(g, cx, cy),
                #[trigger] at(self.sandbox.cells@, cx, cy), self.selected_particle, brushed(pts, bx as int, by as int, cx, cy)) by {
                assert(pts[0] == p);
                if brushed(pts, bx as int, by as int, cx, cy) {
                    let k = choose|k: int| 0 <= k < pts.len() && #[trigger] covers(pts[k], bx as int, by as int, cx, cy);
                    assert(k == 0);
                }
                if covers(p, bx as int, by as int, cx, cy) {
                    assert(covers(pts[0], bx as int, by as int, cx, cy));
                }
            }
        }
    }
}

impl Game {
    /// Paints with the selected particle along the line from `p1` to `p2`
    /// (Bresenham's algorithm, see `line_points`), putting the brush down at
    /// every cell of the line. The brush is `brush_size` cells square, but a
    /// single row high for Electricity. Coordinates are pixel positions of
    /// the sandbox picture, so far below the bound that `requires` puts on
    /// them.
    pub fn place_line(&mut self, p1: (usize, usize), p2: (usize, usize))
        requires
            old(self).sandbox.wf(),
            p1.0 < 0x100_0000,
            p1.1 < 0x100_0000,
            p2.0 < 0x100_0000,
            p2.1 < 0x100_0000,
        ensures
            final(self).sandbox.wf(),
            paint_ok(old(self).sandbox.cells@, final(self).sandbox.cells@,
                line_points(p1.0 as int, p1.1 as int, p2.0 as int, p2.1 as int),
                old(self).brush_size as int,
                if old(self).selected_particle == Some(ParticleType::Electricity) { 1 } else { old(self).brush_size as int },
                old(self).selected_particle),
            final(self).sandbox.update_counter == old(self).sandbox.update_counter,
            final(self).sandbox.background == old(self).sandbox.background,
            final(self).frame_time == old(self).frame_time,
            final(self).is_paused == old(self).is_paused,
            final(self).should_update_once == old(self).should_update_once,
            final(self).selected_particle == old(self).selected_particle,
            final(self).brush_size == old(self).brush_size,
    {
        let ghost g = self.sandbox.cells@;
        let brush_size_x = self.brush_size as usize;
        let brush_size_y: usize = if self.selected_particle == Some(ParticleType::Electricity) {
            1
        } else {
            self.brush_size as usize
        };
        let x0 = p1.0 as i64;
        let y0 = p1.1 as i64;
        let x1 = p2.0 as i64;
        let y1 = p2.1 as i64;
        let mut px = x0;
        let mut py = y0;
        let dx: i64 = if x1 >= x0 { x1 - x0 } else { x0 - x1 };
        let sx: i64 = if x0 < x1 { 1 } else { -1 };
        let dy: i64 = if y1 >= y0 { y0 - y1 } else { y1 - y0 };
        let sy: i64 = if y0 < y1 { 1 } else { -1 };
        let mut err: i64 = dx + dy;
        let ghost dd: int = -dy;
        let ghost mut u: int = 0;
        let ghost mut v: int = 0;
        let ghost mut pts: Seq<(int, int)> = Seq::empty();
        let ghost full = line_points(x0 as int, y0 as int, x1 as int, y1 as int);
        proof {
            assert(pts + walk_points(x0 as int, y0 as int, sx as int, sy as int, dx as int, dd, u, v, err as int) =~= full);
            assert forall|cx: int, cy: int| in_grid(cx, cy) implies painted(at(g, cx, cy),
                #[trigger] at(self.sandbox.cells@, cx, cy), self.selected_particle,
                brushed(pts, brush_size_x as int, brush_size_y as int, cx, cy)) by {}
        }
        loop
            invariant_except_break
                pts + walk_points(x0 as int, y0 as int, sx as int, sy as int, dx as int, dd, u, v, err as int) == full,
            invariant
                self.sandbox.wf(),
                g == old(self).sandbox.cells@,
                self.sandbox.update_counter == old(self).sandbox.update_counter,
                self.sandbox.background == old(self).sandbox.background,
                self.frame_time == old(self).frame_time,
                self.is_paused == old(self).is_paused,
                self.should_update_once == old(self).should_update_once,
                self.selected_particle == old(self).selected_particle,
                self.brush_size == old(self).brush_size,
                brush_size_x == self.brush_size,
                brush_size_y == (if self.selected_particle == Some(ParticleType::Electricity) { 1 } else { self.brush_size as int }),
                0 <= x0 < 0x100_0000,
                0 <= y0 < 0x100_0000,
                0 <= x1 < 0x100_0000,
                0 <= y1 < 0x100_0000,
                dx == (if x1 >= x0 { x1 - x0 } else { x0 - x1 }),
                dd == (if y1 >= y0 { y1 - y0 } else { y0 - y1 }),
                dy == -dd,
                sx == (if x0 < x1 { 1int } else { -1int }),
                sy == (if y0 < y1 { 1int } else { -1int }),
                walk_inv(dx as int, dd, u, v, err as int),
                px == x0 + sx * u,
                py == y0 + sy * v,
                full == line_points(x0 as int, y0 as int, x1 as int, y1 as int),
                paint_ok(g, self.sandbox.cells@, pts, brush_size_x as int, brush_size_y as int, self.selected_particle),
            ensures
                self.sandbox.wf(),
                paint_ok(g, self.sandbox.cells@, full, brush_size_x as int, brush_size_y as int, self.selected_particle),
                self.sandbox.update_counter == old(self).sandbox.update_counter,
                self.sandbox.background == old(self).sandbox.background,
                self.frame_time == old(self).frame_time,
                self.is_paused == old(self).is_paused,
                self.should_update_once == old(self).should_update_once,
                self.selected_particle == old(self).selected_particle,
                self.brush_size == old(self).brush_size,
            decreases (dx - u) + (dd - v),
        {
            proof {
                assert(0 <= px < 0x100_0000) by (nonlinear_arith)
                    requires px == x0 + sx * u, 0 <= u <= dx,
                        dx == (if x1 >= x0 { x1 - x0 } else { x0 - x1 }),
                        sx == (if x0 < x1 { 1int } else { -1int }),
                        0 <= x0 < 0x100_0000, 0 <= x1 < 0x100_0000;
                assert(0 <= py < 0x100_0000) by (nonlinear_arith)
                    requires py == y0 + sy * v, 0 <= v <= dd,
                        dd == (if y1 >= y0 { y1 - y0 } else { y0 - y1 }),
                        sy == (if y0 < y1 { 1int } else { -1int }),
                        0 <= y0 < 0x100_0000, 0 <= y1 < 0x100_0000;
            }
            let ghost before = self.sandbox.cells@;
            self.paint_brush(px as usize, py as usize, brush_size_x, brush_size_y);
            proof {
                lemma_paint_twice(g, before, self.sandbox.cells@, pts, (px as int, py as int),
                    brush_size_x as int, brush_size_y as int, self.selected_particle);
                pts = pts.push((px as int, py as int));
            }
            let at_end = px == x1 && py == y1;
            proof {
                if u == dx {
                    assert(px == x1) by (nonlinear_arith)
                        requires px == x0 + sx * u, u == dx, dx == (if x1 >= x0 { x1 - x0 } else { x0 - x1 }),
                            sx == (if x0 < x1 { 1int } else { -1int });
                }
                if px == x1 {
                    assert(u == dx) by (nonlinear_arith)
                        requires px == x0 + sx * u, px == x1, dx == (if x1 >= x0 { x1 - x0 } else { x0 - x1 }),
                            sx == (if x0 < x1 { 1int } else { -1int }), 0 <= u;
                }
                if v == dd {
                    assert(py == y1) by (nonlinear_arith)
                        requires py == y0 + sy * v, v == dd, dd == (if y1 >= y0 { y1 - y0 } else { y0 - y1 }),
                            sy == (if y0 < y1 { 1int } else { -1int });
                }
                if py == y1 {
                    assert(v == dd) by (nonlinear_arith)
                        requires py == y0 + sy * v, py == y1, dd == (if y1 >= y0 { y1 - y0 } else { y0 - y1 }),
                            sy == (if y0 < y1 { 1int } else { -1int }), 0 <= v;
                }
                let rest = walk_points(x0 as int, y0 as int, sx as int, sy as int, dx as int, dd, u, v, err as int);
                assert(rest[0] == (px as int, py as int));
            }
            if at_end {
                proof {
                    let rest = walk_points(x0 as int, y0 as int, sx as int, sy as int, dx as int, dd, u, v, err as int);
                    assert(rest == seq![(px as int, py as int)]);
                    assert(pts =~= full);
                }
                break;
            }
            proof {
                lemma_walk_step(dx as int, dd, u, v, err as int);
                assert(-0x200_0000_0000_0000 < err < 0x200_0000_0000_0000) by (nonlinear_arith)
                    requires err == dx - dd + dx * v - dd * u, 0 <= u <= dx, 0 <= v <= dd,
                        dx < 0x100_0000, dd < 0x100_0000;
            }
            let ghost (u1, v1, err1) = walk_next(dx as int, dd, u, v, err as int);
            let ghost rest = walk_points(x0 as int, y0 as int, sx as int, sy as int, dx as int, dd, u, v, err as int);
            proof {
                assert(sx * (u + 1) == sx * u + sx) by (nonlinear_arith);
                assert(sy * (v + 1) == sy * v + sy) by (nonlinear_arith);
            }
            let e2 = 2 * err;
            if e2 >= dy {
                err = err + dy;
                px = px + sx;
            }
            if e2 <= dx {
                err = err + dx;
                py = py + sy;
            }
            proof {
                let rest1 = walk_points(x0 as int, y0 as int, sx as int, sy as int, dx as int, dd, u1, v1, err1);
                assert(rest == seq![rest[0]] + rest1);
                assert(pts + rest1 =~= full);
                u = u1;
                v = v1;
            }
        }
    }
}

/// Whether two cells are the same or touch (including diagonally).
pub open spec fn touching(a: (int, int), b: (int, int)) -> bool {
    -1 <= a.0 - b.0 <= 1 && -1 <= a.1 - b.1 <= 1
}

/// The rest of a line walk starts where the walk is, ends at the far end,
/// and never skips a cell: consecutive cells touch.
proof fn lemma_walk_points(x0: int, y0: int, sx: int, sy: int, dx: int, dd: int, u: int, v: int, err: int)
    requires
        walk_inv(dx, dd, u, v, err),
        sx == 1 || sx == -1,
        sy == 1 || sy == -1,
    ensures
        ({
            let pts = walk_points(x0, y0, sx, sy, dx, dd, u, v, err);
            &&& pts.len() >= 1
            &&& pts[0] == (x0 + sx * u, y0 + sy * v)
            &&& pts.last() == (x0 + sx * dx, y0 + sy * dd)
            &&& forall|k: int| 0 <= k < pts.len() - 1 ==> #[trigger] touching(pts[k], pts[k + 1])
        }),
    decreases (dx - u) + (dd - v),
{
    let pts = walk_points(x0, y0, sx, sy, dx, dd, u, v, err);
    if !(u == dx && v == dd) {
        lemma_walk_step(dx, dd, u, v, err);
        let (u1, v1, err1) = walk_next(dx, dd, u, v, err);
        lemma_walk_points(x0, y0, sx, sy, dx, dd, u1, v1, err1);
        let rest = walk_points(x0, y0, sx, sy, dx, dd, u1, v1, err1);
        assert(pts == seq![(x0 + sx * u, y0 + sy * v)] + rest);
        assert(touching((x0 + sx * u, y0 + sy * v), rest[0])) by {
            assert(sx * u1 - sx * u == sx * (u1 - u)) by (nonlinear_arith);
            assert(sy * v1 - sy * v == sy * (v1 - v)) by (nonlinear_arith);
            assert(-1 <= sx * (u1 - u) <= 1) by (nonlinear_arith)
                requires sx == 1 || sx == -1, 0 <= u1 - u <= 1;
            assert(-1 <= sy * (v1 - v) <= 1) by (nonlinear_arith)
                requires sy == 1 || sy == -1, 0 <= v1 - v <= 1;
        }
        assert forall|k: int| 0 <= k < pts.len() - 1 implies #[trigger] touching(pts[k], pts[k + 1]) by {
            if k > 0 {
                assert(pts[k] == rest[k - 1]);
                assert(pts[k + 1] == rest[(k - 1) + 1]);
                assert(touching(rest[k - 1], rest[(k - 1) + 1]));
            }
        }
    }
}

/// Bresenham's line from `(x0, y0)` to `(x1, y1)` starts at the first point,
/// ends at the second, and leaves no gap: each cell touches the next, so a
/// stroke of the brush is drawn without holes however fast the cursor moved.
pub proof fn lemma_line_connects(x0: int, y0: int, x1: int, y1: int)
    ensures
        ({
            let pts = line_points(x0, y0, x1, y1);
            &&& pts.len() >= 1
            &&& pts[0] == (x0, y0)
            &&& pts.last() == (x1, y1)
            &&& forall|k: int| 0 <= k < pts.len() - 1 ==> #[trigger] touching(pts[k], pts[k + 1])
        }),
{
    let dx = if x1 >= x0 { x1 - x0 } else { x0 - x1 };
    let dd = if y1 >= y0 { y1 - y0 } else { y0 - y1 };
    let sx = if x0 < x1 { 1int } else { -1int };
    let sy = if y0 < y1 { 1int } else { -1int };
    lemma_walk_points(x0, y0, sx, sy, dx, dd, 0, 0, dx - dd);
    assert(x0 + sx * dx == x1) by (nonlinear_arith)
        requires dx == (if x1 >= x0 { x1 - x0 } else { x0 - x1 }), sx == (if x0 < x1 { 1int } else { -1int });
    assert(y0 + sy * dd == y1) by (nonlinear_arith)
        requires dd == (if y1 >= y0 { y1 - y0 } else { y0 - y1 }), sy == (if y0 < y1 { 1int } else { -1int });
}

/// `|a|`.
pub open spec fn abs_int(a: int) -> int {
    if a < 0 { -a } else { a }
}

/// The walk from a state whose error term is within half a step of the
/// ideal line stays within half a cell of it: every point `(px, py)` it
/// visits has `2 * |(py - y0) * sx * dx - (px - x0) * sy * dd| <= max(dx, dd)`.
proof fn lemma_walk_close(x0: int, y0: int, sx: int, sy: int, dx: int, dd: int, u: int, v: int, err: int)
    requires
        walk_inv(dx, dd, u, v, err),
        2 * abs_int(err - dx + dd) <= (if dx >= dd { dx } else { dd }),
        sx == 1 || sx == -1,
        sy == 1 || sy == -1,
    ensures
        ({
            let pts = walk_points(x0, y0, sx, sy, dx, dd, u, v, err);
            forall|k: int| 0 <= k < pts.len() ==>
                2 * abs_int(((#[trigger] pts[k]).1 - y0) * (sx * dx) - (pts[k].0 - x0) * (sy * dd))
                    <= (if dx >= dd { dx } else { dd })
        }),
    decreases (dx - u) + (dd - v),
{
    let pts = walk_points(x0, y0, sx, sy, dx, dd, u, v, err);
    let m = if dx >= dd { dx } else { dd };
    let here = (x0 + sx * u, y0 + sy * v);
    let z = dx * v - dd * u;
    assert(z == err - dx + dd);
    assert(here.1 - y0 == sy * v && here.0 - x0 == sx * u);
    assert((sy == 1 ==> sy * v == v) && (sy == -1 ==> sy * v == -v) && (sx == 1 ==> sx * u == u) && (sx == -1 ==> sx * u == -u))
        by (nonlinear_arith);
    assert(abs_int((here.1 - y0) * (sx * dx) - (here.0 - x0) * (sy * dd)) == abs_int(z)) by {
        if sx == 1 && sy == 1 {
            assert((here.1 - y0) * (sx * dx) - (here.0 - x0) * (sy * dd) == z) by (nonlinear_arith)
                requires here.1 - y0 == v, here.0 - x0 == u, sx == 1, sy == 1, z == dx * v - dd * u;
        } else if sx == 1 {
            assert((here.1 - y0) * (sx * dx) - (here.0 - x0) * (sy * dd) == -z) by (nonlinear_arith)
                requires here.1 - y0 == -v, here.0 - x0 == u, sx == 1, sy == -1, z == dx * v - dd * u;
        } else if sy == 1 {
            assert((here.1 - y0) * (sx * dx) - (here.0 - x0) * (sy * dd) == -z) by (nonlinear_arith)
                requires here.1 - y0 == v, here.0 - x0 == -u, sx == -1, sy == 1, z == dx * v - dd * u;
        } else {
            assert((here.1 - y0) * (sx * dx) - (here.0 - x0) * (sy * dd) == z) by (nonlinear_arith)
                requires here.1 - y0 == -v, here.0 - x0 == -u, sx == -1, sy == -1, z == dx * v - dd * u;
        }
    }
    if !(u == dx && v == dd) {
        lemma_walk_step(dx, dd, u, v, err);
        let (u1, v1, err1) = walk_next(dx, dd, u, v, err);
        assert(2 * abs_int(err1 - dx + dd) <= m);
        lemma_walk_close(x0, y0, sx, sy, dx, dd, u1, v1, err1);
        let rest = walk_points(x0, y0, sx, sy, dx, dd, u1, v1, err1);
        assert(pts == seq![here] + rest);
        assert forall|k: int| 0 <= k < pts.len() implies
            2 * abs_int(((#[trigger] pts[k]).1 - y0) * (sx * dx) - (pts[k].0 - x0) * (sy * dd)) <= m by {
            if k > 0 {
                assert(pts[k] == rest[k - 1]);
            }
        }
    } else {
        assert(pts == seq![here]);
    }
}

/// Bresenham's line is the straight segment drawn on the grid: every cell
/// `(px, py)` of the line from `(x0, y0)` to `(x1, y1)` lies within half a
/// cell of the segment, measured along its longer axis,
/// `2 * |(py - y0) * (x1 - x0) - (px - x0) * (y1 - y0)| <= max(|x1 - x0|, |y1 - y0|)`,
/// and within the box the two ends span; and the line has one cell per step
/// along its longer axis.
pub proof fn lemma_line_is_straight(x0: int, y0: int, x1: int, y1: int)
    ensures
        ({
            let pts = line_points(x0, y0, x1, y1);
            let m = if abs_int(x1 - x0) >= abs_int(y1 - y0) { abs_int(x1 - x0) } else { abs_int(y1 - y0) };
            forall|k: int| 0 <= k < pts.len() ==> {
                let (px, py) = #[trigger] pts[k];
                &&& 2 * abs_int((py - y0) * (x1 - x0) - (px - x0) * (y1 - y0)) <= m
                &&& abs_int(px - x0) <= abs_int(x1 - x0) && abs_int(px - x1) <= abs_int(x1 - x0)
                &&& abs_int(py - y0) <= abs_int(y1 - y0) && abs_int(py - y1) <= abs_int(y1 - y0)
            }
        }),
{
    let dx = if x1 >= x0 { x1 - x0 } else { x0 - x1 };
    let dd = if y1 >= y0 { y1 - y0 } else { y0 - y1 };
    let sx = if x0 < x1 { 1int } else { -1int };
    let sy = if y0 < y1 { 1int } else { -1int };
    assert(sx * dx == x1 - x0) by (nonlinear_arith)
        requires dx == (if x1 >= x0 { x1 - x0 } else { x0 - x1 }), sx == (if x0 < x1 { 1int } else { -1int });
    assert(sy * dd == y1 - y0) by (nonlinear_arith)
        requires dd == (if y1 >= y0 { y1 - y0 } else { y0 - y1 }), sy == (if y0 < y1 { 1int } else { -1int });
    lemma_walk_close(x0, y0, sx, sy, dx, dd, 0, 0, dx - dd);
    lemma_walk_box(x0, y0, sx, sy, dx, dd, 0, 0, dx - dd);
    let pts = line_points(x0, y0, x1, y1);
    assert forall|k: int| 0 <= k < pts.len() implies {
        let (px, py) = #[trigger] pts[k];
        let m = if abs_int(x1 - x0) >= abs_int(y1 - y0) { abs_int(x1 - x0) } else { abs_int(y1 - y0) };
        &&& 2 * abs_int((py - y0) * (x1 - x0) - (px - x0) * (y1 - y0)) <= m
        &&& abs_int(px - x0) <= abs_int(x1 - x0) && abs_int(px - x1) <= abs_int(x1 - x0)
        &&& abs_int(py - y0) <= abs_int(y1 - y0) && abs_int(py - y1) <= abs_int(y1 - y0)
    } by {
        let (px, py) = pts[k];
        assert(2 * abs_int((pts[k].1 - y0) * (sx * dx) - (pts[k].0 - x0) * (sy * dd)) <= (if dx >= dd { dx } else { dd }));
        assert(0 <= sx * (px - x0) <= dx && 0 <= sy * (py - y0) <= dd);
        assert(abs_int(px - x0) == sx * (px - x0) && abs_int(x1 - x0) == dx && abs_int(px - x1) == dx - sx * (px - x0)) by (nonlinear_arith)
            requires sx == 1 || sx == -1, sx * dx == x1 - x0, 0 <= dx, 0 <= sx * (px - x0) <= dx;
        assert(abs_int(py - y0) == sy * (py - y0) && abs_int(y1 - y0) == dd && abs_int(py - y1) == dd - sy * (py - y0)) by (nonlinear_arith)
            requires sy == 1 || sy == -1, sy * dd == y1 - y0, 0 <= dd, 0 <= sy * (py - y0) <= dd;
    }
}

/// Every point of the walk lies in the box `(x0, y0)`..`(x0 + sx * dx, y0 + sy * dd)`.
proof fn lemma_walk_box(x0: int, y0: int, sx: int, sy: int, dx: int, dd: int, u: int, v: int, err: int)
    requires
        walk_inv(dx, dd, u, v, err),
        sx == 1 || sx == -1,
        sy == 1 || sy == -1,
    ensures
        ({
            let pts = walk_points(x0, y0, sx, sy, dx, dd, u, v, err);
            forall|k: int| 0 <= k < pts.len() ==>
                0 <= sx * ((#[trigger] pts[k]).0 - x0) <= dx && 0 <= sy * (pts[k].1 - y0) <= dd
        }),
    decreases (dx - u) + (dd - v),
{
    let pts = walk_points(x0, y0, sx, sy, dx, dd, u, v, err);
    let here = (x0 + sx * u, y0 + sy * v);
    assert(sx * (here.0 - x0) == u && sy * (here.1 - y0) == v) by (nonlinear_arith)
        requires here == (x0 + sx * u, y0 + sy * v), sx == 1 || sx == -1, sy == 1 || sy == -1;
    if !(u == dx && v == dd) {
        lemma_walk_step(dx, dd, u, v, err);
        let (u1, v1, err1) = walk_next(dx, dd, u, v, err);
        lemma_walk_box(x0, y0, sx, sy, dx, dd, u1, v1, err1);
        let rest = walk_points(x0, y0, sx, sy, dx, dd, u1, v1, err1);
        assert(pts == seq![here] + rest);
        assert forall|k: int| 0 <= k < pts.len() implies
            0 <= sx * ((#[trigger] pts[k]).0 - x0) <= dx && 0 <= sy * (pts[k].1 - y0) <= dd by {
            if k > 0 {
                assert(pts[k] == rest[k - 1]);
            }
        }
    } else {
        assert(pts == seq![here]);
    }
}

/// The keys the game responds to; every other key is `Other`.
#[derive(Clone, Copy, PartialEq, Eq, Structural, Debug)]
pub enum Key {
    Escape,
    Return,
    Back,
    Space,
    Period,
    Equals,
    Minus,
    Key1,
    Key2,
    Key3,
    D,
    S,
    W,
    A,
    I,
    R,
    P,
    C,
    U,
    E,
    L,
    F,
    M,
    G,
    Other,
}

/// What the window or the interface must do after a key press.
#[derive(Clone, Copy, PartialEq, Eq, Structural, Debug)]
pub enum KeyAction {
    Nothing,
    Exit,
    ToggleFullscreen,
    ToggleUi,
    ToggleFps,
    ToggleProfiler,
}

/// The kind a selection key picks (`D` picks the delete tool).
pub open spec fn key_selection(key: Key) -> Option<Option<ParticleType>> {
    match key {
        Key::D => Some(None),
        Key::S => Some(Some(ParticleType::Sand)),
        Key::W => Some(Some(ParticleType::Water)),
        Key::A => Some(Some(ParticleType::Acid)),
        Key::I => Some(Some(ParticleType::Iridium)),
        Key::R => Some(Some(ParticleType::Replicator)),
        Key::P => Some(Some(ParticleType::Plant)),
        Key::C => Some(Some(ParticleType::Cryotheum)),
        Key::U => Some(Some(ParticleType::Unstable)),
        Key::E => Some(Some(ParticleType::Electricity)),
        Key::L => Some(Some(ParticleType::Life)),
        Key::F => Some(Some(ParticleType::Fire)),
        Key::M => Some(Some(ParticleType::Mirror)),
        Key::G => Some(Some(ParticleType::Glitch)),
        _ => None,
    }
}

/// What a key press asks of the window or interface.
pub open spec fn key_action(key: Key) -> KeyAction {
    match key {
        Key::Escape => KeyAction::Exit,
        Key::Return => KeyAction::ToggleFullscreen,
        Key::Key1 => KeyAction::ToggleUi,
        Key::Key2 => KeyAction::ToggleFps,
        Key::Key3 => KeyAction::ToggleProfiler,
        _ => KeyAction::Nothing,
    }
}

/// The brush size after pressing `key`: `=` grows it up to 10, `-` shrinks
/// it down to 1.
pub open spec fn brush_after(key: Key, size: u8) -> u8 {
    if key == Key::Equals && size < 10 {
        (size + 1) as u8
    } else if key == Key::Minus && size > 1 {
        (size - 1) as u8
    } else {
        size
    }
}

/// The selection after pressing `key`.
pub open spec fn selection_after(key: Key, selected: Option<ParticleType>) -> Option<ParticleType> {
    match key_selection(key) {
        Some(t) => t,
        None => selected,
    }
}

impl Game {
    /// Handles a key press. Backspace empties the sandbox, Space pauses or
    /// resumes, Period (while paused) asks for a single step, `=` and `-`
    /// grow and shrink the brush within 1..=10, and the letter keys select a
    /// kind (see `key_selection`); the returned action (see `key_action`) is
    /// for the window and the interface.
    pub fn handle_key_press(&mut self, key: Key) -> (action: KeyAction)
        requires
            old(self).sandbox.wf(),
        ensures
            action == key_action(key),
            final(self).sandbox.wf(),
            key == Key::Back ==> final(self).sandbox.cells@ == Seq::new(n_cells() as nat, |i: int| None::<Particle>)
                && final(self).sandbox.update_counter == 1,
            key != Key::Back ==> final(self).sandbox == old(self).sandbox,
            final(self).is_paused == (if key == Key::Space { !old(self).is_paused } else { old(self).is_paused }),
            final(self).should_update_once
                == (if key == Key::Period && old(self).is_paused { true } else { old(self).should_update_once }),
            final(self).brush_size == brush_after(key, old(self).brush_size),
            final(self).selected_particle == selection_after(key, old(self).selected_particle),
            final(self).frame_time == old(self).frame_time,
    {
        match key {
            Key::Escape => KeyAction::Exit,
            Key::Return => KeyAction::ToggleFullscreen,
            Key::Back => {
                self.sandbox.empty_out();
                KeyAction::Nothing
            },
            Key::Space => {
                self.is_paused = !self.is_paused;
                KeyAction::Nothing
            },
            Key::Period => {
                if self.is_paused {
                    self.should_update_once = true;
                }
                KeyAction::Nothing
            },
            Key::Equals => {
                if self.brush_size < 10 {
                    self.brush_size = self.brush_size + 1;
                }
                KeyAction::Nothing
            },
            Key::Minus => {
                if self.brush_size > 1 {
                    self.brush_size = self.brush_size - 1;
                }
                KeyAction::Nothing
            },
            Key::Key1 => KeyAction::ToggleUi,
            Key::Key2 => KeyAction::ToggleFps,
            Key::Key3 => KeyAction::ToggleProfiler,
            Key::D => {
                self.selected_particle = None;
                KeyAction::Nothing
            },
            Key::S => {
                self.selected_particle = Some(ParticleType::Sand);
                KeyAction::Nothing
            },
            Key::W => {
                self.selected_particle = Some(ParticleType::Water);
                KeyAction::Nothing
            },
            Key::A => {
                self.selected_particle = Some(ParticleType::Acid);
                KeyAction::Nothing
            },
            Key::I => {
                self.selected_particle = Some(ParticleType::Iridium);
                KeyAction::Nothing
            },
            Key::R => {
                self.selected_particle = Some(ParticleType::Replicator);
                KeyAction::Nothing
            },
            Key::P => {
                self.selected_particle = Some(ParticleType::Plant);
                KeyAction::Nothing
            },
            Key::C => {
                self.selected_particle = Some(ParticleType::Cryotheum);
                KeyAction::Nothing
            },
            Key::U => {
                self.selected_particle = Some(ParticleType::Unstable);
                KeyAction::Nothing
            },
            Key::E => {
                self.selected_particle = Some(ParticleType::Electricity);
                KeyAction::Nothing
            },
            Key::L => {
                self.selected_particle = Some(ParticleType::Life);
                KeyAction::Nothing
            },
            Key::F => {
                self.selected_particle = Some(ParticleType::Fire);
                KeyAction::Nothing
            },
            Key::M => {
                self.selected_particle = Some(ParticleType::Mirror);
                KeyAction::Nothing
            },
            Key::G => {
                self.selected_particle = Some(ParticleType::Glitch);
                KeyAction::Nothing
            },
            Key::Other => KeyAction::Nothing,
        }
    }
}

/// The keys keep the brush size within 1..=10 and the selection among the
/// kinds the interface offers: whatever key is pressed, a brush and a
/// selection that were in range stay in range.
pub proof fn lemma_keys_keep_settings(key: Key, size: u8, selected: Option<ParticleType>)
    requires
        1 <= size <= 10,
        crate::ui::selectable(selected),
    ensures
        1 <= brush_after(key, size) <= 10,
        crate::ui::selectable(selection_after(key, selected)),
{
}

} // verus!
