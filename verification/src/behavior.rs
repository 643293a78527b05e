//! The movement and interaction rules of each particle kind.
//!
//! Every rule acts on the particle at `(x, y)`. A movement rule moves it (by
//! exchanging two cells) and returns where it ended up; an update rule changes
//! the particle or its neighbourhood in place.

use vstd::prelude::*;
use crate::particle::{Particle, ParticleType, acid_dissolves, coldsnap_affects, flammable_kind, fresh_particle, unstable_vaporizes};
use crate::rng::{gen_ratio, gen_range_i8, gen_range_isize, gen_u64, shuffle_four};
use crate::sandbox::{map_cells, n_cells, cell_index, lemma_coords, lemma_grid_ext, lemma_map_cells_at, lemma_cell_index, Sandbox, SANDBOX_HEIGHT, SANDBOX_WIDTH, at, cell_ok, holds_kind, in_grid, put, same_frame, swapped, vacant};

verus! {

/// What a rule relies on: buffers of the right sizes and a cell on the grid.
pub open spec fn movable(sb: Sandbox, x: int, y: int) -> bool {
    sb.sized() && in_grid(x, y)
}

/// A movement rule's effect: the cells at `(x, y)` and at `to` are exchanged,
/// nothing else changes but (for a rule that draws) the generator.
pub open spec fn moved_to(old: Sandbox, new: Sandbox, x: int, y: int, to: (usize, usize)) -> bool {
    &&& new.sized()
    &&& (old.wf() ==> new.wf())
    &&& in_grid(to.0 as int, to.1 as int)
    &&& new.cells@ == swapped(old.cells@, x, y, to.0 as int, to.1 as int)
    &&& same_frame(new, old)
}

/// Where a solid falls: one cell down if that is empty.
pub open spec fn solid_dest(g: Seq<Option<Particle>>, x: int, y: int) -> (int, int) {
    if y != SANDBOX_HEIGHT - 1 && vacant(g, x, y + 1) { (x, y + 1) } else { (x, y) }
}

/// Of two ways `left` and `right`, open as `l` and `r`: the left one when
/// only it is open, the right one when only it is open, and when both are
/// open the one the coin `right_first` picks; `stay` when neither is.
pub open spec fn pick_side(l: bool, r: bool, right_first: bool, left: (int, int), right: (int, int), stay: (int, int)) -> (int, int) {
    if l && !(r && right_first) { left } else if r { right } else { stay }
}

/// Whether a diagonal step from `(x, y)` to the side `dx` (-1 or 1) and row
/// `y + dy` is open: the target and the cell beside the particle are empty.
pub open spec fn diagonal_open(g: Seq<Option<Particle>>, x: int, y: int, dx: int, dy: int) -> bool {
    (if dx < 0 { x != 0 } else { x != SANDBOX_WIDTH - 1 }) && vacant(g, x + dx, y + dy) && vacant(g, x + dx, y)
}

/// Whether the cell beside `(x, y)` on the side `dx` (-1 or 1) is open.
pub open spec fn side_open(g: Seq<Option<Particle>>, x: int, y: int, dx: int) -> bool {
    (if dx < 0 { x != 0 } else { x != SANDBOX_WIDTH - 1 }) && vacant(g, x + dx, y)
}

/// Where a powder moves: down, else diagonally down to the left or to the
/// right (see `diagonal_open`), choosing between the two by the coin
/// `right_first` when both are open.
pub open spec fn powder_dest(g: Seq<Option<Particle>>, x: int, y: int, right_first: bool) -> (int, int) {
    if y != SANDBOX_HEIGHT - 1 {
        if vacant(g, x, y + 1) {
            (x, y + 1)
        } else {
            pick_side(diagonal_open(g, x, y, -1, 1), diagonal_open(g, x, y, 1, 1), right_first,
                (x - 1, y + 1), (x + 1, y + 1), (x, y))
        }
    } else {
        (x, y)
    }
}

/// Whether a powder at `(x, y)` has two ways to go and flips a coin: it
/// cannot fall straight down but both diagonals are open.
pub open spec fn powder_tie(g: Seq<Option<Particle>>, x: int, y: int) -> bool {
    y != SANDBOX_HEIGHT - 1 && !vacant(g, x, y + 1) && diagonal_open(g, x, y, -1, 1) && diagonal_open(g, x, y, 1, 1)
}

/// Where a liquid moves: as a powder, else one cell to the left or to the
/// right, choosing by the coin `right_first` when both are open.
pub open spec fn liquid_dest(g: Seq<Option<Particle>>, x: int, y: int, right_first: bool) -> (int, int) {
    let d = powder_dest(g, x, y, right_first);
    if d != (x, y) {
        d
    } else {
        pick_side(side_open(g, x, y, -1), side_open(g, x, y, 1), right_first, (x - 1, y), (x + 1, y), (x, y))
    }
}

/// Whether a liquid at `(x, y)` flips a coin: both diagonals are open where
/// it cannot fall, or it cannot move as a powder and both sides are open.
pub open spec fn liquid_tie(g: Seq<Option<Particle>>, x: int, y: int) -> bool {
    ||| powder_tie(g, x, y)
    ||| powder_dest(g, x, y, false) == (x, y) && side_open(g, x, y, -1) && side_open(g, x, y, 1)
}

/// Where a gas rising (when `rise`, a coin flipped only below the top row)
/// moves: up, else diagonally up to the left or the right (the coin
/// `right_first` choosing when both are open); `(x, y)` when it does not rise
/// or cannot.
pub open spec fn rise_dest(g: Seq<Option<Particle>>, x: int, y: int, rise: bool, right_first: bool) -> (int, int) {
    if y != 0 && rise {
        if vacant(g, x, y - 1) {
            (x, y - 1)
        } else {
            pick_side(diagonal_open(g, x, y, -1, -1), diagonal_open(g, x, y, 1, -1), right_first,
                (x - 1, y - 1), (x + 1, y - 1), (x, y))
        }
    } else {
        (x, y)
    }
}

/// Where a gas moves: as `rise_dest`, else one cell to the left or to the
/// right, the coin `right_first` choosing when both are open.
pub open spec fn gas_dest(g: Seq<Option<Particle>>, x: int, y: int, rise: bool, right_first: bool) -> (int, int) {
    let d = rise_dest(g, x, y, rise, right_first);
    if d != (x, y) {
        d
    } else {
        pick_side(side_open(g, x, y, -1), side_open(g, x, y, 1), right_first, (x - 1, y), (x + 1, y), (x, y))
    }
}

/// Whether a gas at `(x, y)`, rising or not as `rise` says, flips a coin for
/// its side: both upward diagonals are open where it cannot rise straight,
/// or it does not move upward and both sides are open.
pub open spec fn gas_tie(g: Seq<Option<Particle>>, x: int, y: int, rise: bool) -> bool {
    ||| y != 0 && rise && !vacant(g, x, y - 1) && diagonal_open(g, x, y, -1, -1) && diagonal_open(g, x, y, 1, -1)
    ||| rise_dest(g, x, y, rise, false) == (x, y) && side_open(g, x, y, -1) && side_open(g, x, y, 1)
}

/// Whether cell `(x, y)` is empty (`(x, y)` on the grid).
fn is_vacant(sb: &Sandbox, x: usize, y: usize) -> (b: bool)
    requires
        sb.sized(),
        in_grid(x as int, y as int),
    ensures
        b == vacant(sb.cells@, x as int, y as int),
{
    sb.cells[x * SANDBOX_HEIGHT + y].is_none()
}

/// Moves the particle at `(x, y)` one cell down if that cell is empty.
pub fn move_solid(sandbox: &mut Sandbox, x: usize, y: usize) -> (to: (usize, usize))
    requires
        movable(*old(sandbox), x as int, y as int),
    ensures
        (to.0 as int, to.1 as int) == solid_dest(old(sandbox).cells@, x as int, y as int),
        moved_to(*old(sandbox), *final(sandbox), x as int, y as int, to),
        final(sandbox).rng == old(sandbox).rng,
{
    if y != SANDBOX_HEIGHT - 1 {
        if is_vacant(sandbox, x, y + 1) {
            sandbox.swap(x, y, x, y + 1);
            return (x, y + 1);
        }
    }
    proof { assert(swapped(sandbox.cells@, x as int, y as int, x as int, y as int) =~= sandbox.cells@); }
    (x, y)
}

/// Whether the diagonal step from `(x, y)` to the left (else the right) and
/// one row down (else up) is open (see `diagonal_open`).
fn is_diagonal_open(sb: &Sandbox, x: usize, y: usize, left: bool, down: bool) -> (b: bool)
    requires
        sb.sized(),
        in_grid(x as int, y as int),
        down ==> y + 1 < SANDBOX_HEIGHT,
        !down ==> y >= 1,
    ensures
        b == diagonal_open(sb.cells@, x as int, y as int, if left { -1int } else { 1int }, if down { 1int } else { -1int }),
{
    let ny = if down { y + 1 } else { y - 1 };
    if left {
        x != 0 && is_vacant(sb, x - 1, ny) && is_vacant(sb, x - 1, y)
    } else {
        x != SANDBOX_WIDTH - 1 && is_vacant(sb, x + 1, ny) && is_vacant(sb, x + 1, y)
    }
}

/// Whether the cell beside `(x, y)` on the left (else the right) is open
/// (see `side_open`).
fn is_side_open(sb: &Sandbox, x: usize, y: usize, left: bool) -> (b: bool)
    requires
        sb.sized(),
        in_grid(x as int, y as int),
    ensures
        b == side_open(sb.cells@, x as int, y as int, if left { -1int } else { 1int }),
{
    if left {
        x != 0 && is_vacant(sb, x - 1, y)
    } else {
        x != SANDBOX_WIDTH - 1 && is_vacant(sb, x + 1, y)
    }
}

/// Flips a fair coin with the sandbox's generator when `tie`; `false`
/// without drawing otherwise. Only the generator changes.
fn coin_if(sandbox: &mut Sandbox, tie: bool) -> (right_first: bool)
    ensures
        right_first ==> tie,
        !tie ==> final(sandbox).rng == old(sandbox).rng,
        final(sandbox).cells == old(sandbox).cells,
        final(sandbox).last_cells == old(sandbox).last_cells,
        final(sandbox).update_counter == old(sandbox).update_counter,
        final(sandbox).background == old(sandbox).background,
{
    tie && gen_ratio(&mut sandbox.rng, 1, 2)
}

/// Moves the particle at `(x, y)` as a powder (see `powder_dest`), with the
/// coin `right_first` given.
pub fn move_powder_with(sandbox: &mut Sandbox, x: usize, y: usize, right_first: bool) -> (to: (usize, usize))
    requires
        movable(*old(sandbox), x as int, y as int),
    ensures
        (to.0 as int, to.1 as int) == powder_dest(old(sandbox).cells@, x as int, y as int, right_first),
        moved_to(*old(sandbox), *final(sandbox), x as int, y as int, to),
        final(sandbox).rng == old(sandbox).rng,
{
    if y != SANDBOX_HEIGHT - 1 {
        if is_vacant(sandbox, x, y + 1) {
            sandbox.swap(x, y, x, y + 1);
            return (x, y + 1);
        }
        let l = is_diagonal_open(sandbox, x, y, true, true);
        let r = is_diagonal_open(sandbox, x, y, false, true);
        if l && !(r && right_first) {
            sandbox.swap(x, y, x - 1, y + 1);
            return (x - 1, y + 1);
        }
        if r {
            sandbox.swap(x, y, x + 1, y + 1);
            return (x + 1, y + 1);
        }
    }
    proof { assert(swapped(sandbox.cells@, x as int, y as int, x as int, y as int) =~= sandbox.cells@); }
    (x, y)
}

/// Moves the particle at `(x, y)` as a powder (see `powder_dest`). When both
/// diagonals are open (`powder_tie`) a fair coin picks the side; otherwise
/// nothing is drawn.
pub fn move_powder(sandbox: &mut Sandbox, x: usize, y: usize) -> (to: (usize, usize))
    requires
        movable(*old(sandbox), x as int, y as int),
    ensures
        exists|right_first: bool|
            #[trigger] powder_dest(old(sandbox).cells@, x as int, y as int, right_first) == (to.0 as int, to.1 as int),
        moved_to(*old(sandbox), *final(sandbox), x as int, y as int, to),
        !powder_tie(old(sandbox).cells@, x as int, y as int) ==> final(sandbox).rng == old(sandbox).rng,
{
    let tie = y != SANDBOX_HEIGHT - 1 && !is_vacant(sandbox, x, y + 1)
        && is_diagonal_open(sandbox, x, y, true, true) && is_diagonal_open(sandbox, x, y, false, true);
    let right_first = coin_if(sandbox, tie);
    move_powder_with(sandbox, x, y, right_first)
}

/// Moves the particle at `(x, y)` as a liquid (see `liquid_dest`), with the
/// coin `right_first` given.
pub fn move_liquid_with(sandbox: &mut Sandbox, x: usize, y: usize, right_first: bool) -> (to: (usize, usize))
    requires
        movable(*old(sandbox), x as int, y as int),
    ensures
        (to.0 as int, to.1 as int) == liquid_dest(old(sandbox).cells@, x as int, y as int, right_first),
        moved_to(*old(sandbox), *final(sandbox), x as int, y as int, to),
        final(sandbox).rng == old(sandbox).rng,
{
    if y != SANDBOX_HEIGHT - 1 {
        if is_vacant(sandbox, x, y + 1) {
            sandbox.swap(x, y, x, y + 1);
            return (x, y + 1);
        }
        let l = is_diagonal_open(sandbox, x, y, true, true);
        let r = is_diagonal_open(sandbox, x, y, false, true);
        if l && !(r && right_first) {
            sandbox.swap(x, y, x - 1, y + 1);
            return (x - 1, y + 1);
        }
        if r {
            sandbox.swap(x, y, x + 1, y + 1);
            return (x + 1, y + 1);
        }
    }
    let l = is_side_open(sandbox, x, y, true);
    let r = is_side_open(sandbox, x, y, false);
    if l && !(r && right_first) {
        sandbox.swap(x, y, x - 1, y);
        return (x - 1, y);
    }
    if r {
        sandbox.swap(x, y, x + 1, y);
        return (x + 1, y);
    }
    proof { assert(swapped(sandbox.cells@, x as int, y as int, x as int, y as int) =~= sandbox.cells@); }
    (x, y)
}

/// Moves the particle at `(x, y)` as a liquid (see `liquid_dest`). When it
/// has two ways to go (`liquid_tie`) a fair coin picks the side; otherwise
/// nothing is drawn.
pub fn move_liquid(sandbox: &mut Sandbox, x: usize, y: usize) -> (to: (usize, usize))
    requires
        movable(*old(sandbox), x as int, y as int),
    ensures
        exists|right_first: bool|
            #[trigger] liquid_dest(old(sandbox).cells@, x as int, y as int, right_first) == (to.0 as int, to.1 as int),
        moved_to(*old(sandbox), *final(sandbox), x as int, y as int, to),
        !liquid_tie(old(sandbox).cells@, x as int, y as int) ==> final(sandbox).rng == old(sandbox).rng,
{
    let falls = y != SANDBOX_HEIGHT - 1 && is_vacant(sandbox, x, y + 1);
    let dl = y != SANDBOX_HEIGHT - 1 && is_diagonal_open(sandbox, x, y, true, true);
    let dr = y != SANDBOX_HEIGHT - 1 && is_diagonal_open(sandbox, x, y, false, true);
    let sl = is_side_open(sandbox, x, y, true);
    let sr = is_side_open(sandbox, x, y, false);
    let tie = (!falls && dl && dr) || (!falls && !dl && !dr && sl && sr);
    let right_first = coin_if(sandbox, tie);
    move_liquid_with(sandbox, x, y, right_first)
}

/// Moves the particle at `(x, y)` as a gas (see `gas_dest`), with the coins
/// `rise` and `right_first` given.
pub fn move_gas_with(sandbox: &mut Sandbox, x: usize, y: usize, rise: bool, right_first: bool) -> (to: (usize, usize))
    requires
        movable(*old(sandbox), x as int, y as int),
    ensures
        (to.0 as int, to.1 as int) == gas_dest(old(sandbox).cells@, x as int, y as int, rise, right_first),
        moved_to(*old(sandbox), *final(sandbox), x as int, y as int, to),
        final(sandbox).rng == old(sandbox).rng,
{
    if y != 0 && rise {
        if is_vacant(sandbox, x, y - 1) {
            sandbox.swap(x, y, x, y - 1);
            return (x, y - 1);
        }
        let l = is_diagonal_open(sandbox, x, y, true, false);
        let r = is_diagonal_open(sandbox, x, y, false, false);
        if l && !(r && right_first) {
            sandbox.swap(x, y, x - 1, y - 1);
            return (x - 1, y - 1);
        }
        if r {
            sandbox.swap(x, y, x + 1, y - 1);
            return (x + 1, y - 1);
        }
    }
    let l = is_side_open(sandbox, x, y, true);
    let r = is_side_open(sandbox, x, y, false);
    if l && !(r && right_first) {
        sandbox.swap(x, y, x - 1, y);
        return (x - 1, y);
    }
    if r {
        sandbox.swap(x, y, x + 1, y);
        return (x + 1, y);
    }
    proof { assert(swapped(sandbox.cells@, x as int, y as int, x as int, y as int) =~= sandbox.cells@); }
    (x, y)
}

/// The coins of a gas move at `(x, y)`: below the top row a fair coin decides
/// whether it tries to rise first; then, when it has two ways to go
/// (`gas_tie`), a second coin picks the side. Only the generator changes.
fn gas_coins(sandbox: &mut Sandbox, x: usize, y: usize) -> (coins: (bool, bool))
    requires
        old(sandbox).sized(),
        in_grid(x as int, y as int),
    ensures
        y == 0 ==> !coins.0,
        y == 0 && !gas_tie(old(sandbox).cells@, x as int, y as int, false) ==> final(sandbox).rng == old(sandbox).rng,
        final(sandbox).cells == old(sandbox).cells,
        final(sandbox).last_cells == old(sandbox).last_cells,
        final(sandbox).update_counter == old(sandbox).update_counter,
        final(sandbox).background == old(sandbox).background,
{
    let rise = y != 0 && gen_ratio(&mut sandbox.rng, 1, 2);
    let up = rise && is_vacant(sandbox, x, y - 1);
    let ul = rise && is_diagonal_open(sandbox, x, y, true, false);
    let ur = rise && is_diagonal_open(sandbox, x, y, false, false);
    let sl = is_side_open(sandbox, x, y, true);
    let sr = is_side_open(sandbox, x, y, false);
    let tie = (rise && !up && ul && ur) || (!up && !ul && !ur && sl && sr);
    let right_first = coin_if(sandbox, tie);
    (rise, right_first)
}

/// Moves the particle at `(x, y)` as a gas, drawing its coins (see
/// `gas_coins`).
pub fn move_gas(sandbox: &mut Sandbox, x: usize, y: usize) -> (to: (usize, usize))
    requires
        movable(*old(sandbox), x as int, y as int),
    ensures
        exists|rise: bool, right_first: bool|
            #[trigger] gas_dest(old(sandbox).cells@, x as int, y as int, rise, right_first) == (to.0 as int, to.1 as int),
        moved_to(*old(sandbox), *final(sandbox), x as int, y as int, to),
        y == 0 && !gas_tie(old(sandbox).cells@, x as int, y as int, false) ==> final(sandbox).rng == old(sandbox).rng,
{
    let (rise, right_first) = gas_coins(sandbox, x, y);
    move_gas_with(sandbox, x, y, rise, right_first)
}

/// `p` with `extra_data2` replaced by `e`.
pub open spec fn with_extra2(p: Particle, e: i8) -> Particle {
    Particle { extra_data2: e, ..p }
}

/// `p` with `extra_data1` replaced by `e`.
pub open spec fn with_extra1(p: Particle, e: i8) -> Particle {
    Particle { extra_data1: e, ..p }
}

/// The four directions an Electricity particle can travel in, in the order
/// `extra_data1` numbers them: right, left, down, up.
pub open spec fn base_offsets() -> Seq<(isize, isize)> {
    seq![(1isize, 0isize), (-1isize, 0isize), (0isize, 1isize), (0isize, -1isize)]
}

/// The direction that `extra_data1 == e` names (`e` in 0..=3).
pub open spec fn direction(e: i8) -> (int, int) {
    if e == 0 { (1, 0) } else if e == 1 { (-1, 0) } else if e == 2 { (0, 1) } else { (0, -1) }
}

/// The first position, from `from` on, of `order` whose offset from `(x, y)`
/// leads to a Water particle on the grid; `order.len()` when none does.
pub open spec fn first_water(g: Seq<Option<Particle>>, x: int, y: int, order: Seq<(isize, isize)>, from: int) -> int
    decreases order.len() - from,
{
    if from < 0 || from >= order.len() {
        order.len() as int
    } else if holds_kind(g, x + order[from].0, y + order[from].1, ParticleType::Water) {
        from
    } else {
        first_water(g, x, y, order, from + 1)
    }
}

/// What an Electricity move does to grid `g` and where the particle ends up,
/// with `order` the order in which the four directions are tried.
///
/// A particle still travelling (`extra_data2 != 0`) counts one step down and
/// trades places with Water in its direction, if there is any. Otherwise it
/// trades places with the first Water found in `order`; failing that it falls
/// one cell, or, when it cannot fall (bottom row, or a non-Replicator below),
/// marks itself for deletion with `extra_data2 = -1`.
pub open spec fn electricity_outcome(g: Seq<Option<Particle>>, x: int, y: int, order: Seq<(isize, isize)>)
    -> (Seq<Option<Particle>>, (int, int))
{
    let p = at(g, x, y).unwrap();
    if p.extra_data2 != 0 {
        let g1 = put(g, x, y, Some(with_extra2(p, p.extra_data2.wrapping_sub(1))));
        let d = direction(p.extra_data1);
        if holds_kind(g1, x + d.0, y + d.1, ParticleType::Water) {
            (swapped(g1, x, y, x + d.0, y + d.1), (x + d.0, y + d.1))
        } else {
            (g1, (x, y))
        }
    } else {
        let k = first_water(g, x, y, order, 0);
        if k < order.len() {
            (swapped(g, x, y, x + order[k].0, y + order[k].1), (x + order[k].0, y + order[k].1))
        } else if y != SANDBOX_HEIGHT - 1 {
            if at(g, x, y + 1) is None {
                (swapped(g, x, y, x, y + 1), (x, y + 1))
            } else if at(g, x, y + 1).unwrap().ptype != ParticleType::Replicator {
                (put(g, x, y, Some(with_extra2(p, -1i8))), (x, y))
            } else {
                (g, (x, y))
            }
        } else {
            (put(g, x, y, Some(with_extra2(p, -1i8))), (x, y))
        }
    }
}

/// What the Electricity rule needs of the particle at `(x, y)`: there is one,
/// and if it is travelling, its direction is one of the four.
pub open spec fn electricity_ready(g: Seq<Option<Particle>>, x: int, y: int) -> bool {
    &&& at(g, x, y) is Some
    &&& at(g, x, y).unwrap().extra_data2 != 0 ==> 0 <= at(g, x, y).unwrap().extra_data1 <= 3
}

/// An offset of at most one cell in each direction.
pub open spec fn unit_offset(o: (isize, isize)) -> bool {
    -1 <= o.0 <= 1 && -1 <= o.1 <= 1
}

/// The cell at offset `(dx, dy)` from `(x, y)`, if it is on the grid.
fn neighbour(x: usize, y: usize, dx: isize, dy: isize) -> (r: Option<(usize, usize)>)
    requires
        in_grid(x as int, y as int),
        -64 <= dx <= 64,
        -64 <= dy <= 64,
    ensures
        r matches Some(c) ==> c.0 == x + dx && c.1 == y + dy && in_grid(c.0 as int, c.1 as int),
        r is None ==> !in_grid(x + dx, y + dy),
{
    let x2 = x as isize + dx;
    let y2 = y as isize + dy;
    if 0 <= x2 && x2 < SANDBOX_WIDTH as isize && 0 <= y2 && y2 < SANDBOX_HEIGHT as isize {
        Some((x2 as usize, y2 as usize))
    } else {
        None
    }
}

/// Whether cell `(x, y)` holds Water.
fn is_water(sb: &Sandbox, x: usize, y: usize) -> (b: bool)
    requires
        sb.sized(),
        in_grid(x as int, y as int),
    ensures
        b == holds_kind(sb.cells@, x as int, y as int, ParticleType::Water),
{
    match sb.get(x, y) {
        Some(q) => q.ptype == ParticleType::Water,
        None => false,
    }
}

/// Moves the Electricity particle at `(x, y)` (see `electricity_outcome`),
/// trying the directions in the order `order` gives.
pub fn move_electricity_with(sandbox: &mut Sandbox, x: usize, y: usize, order: &[(isize, isize); 4]) -> (to: (usize, usize))
    requires
        movable(*old(sandbox), x as int, y as int),
        electricity_ready(old(sandbox).cells@, x as int, y as int),
        forall|i: int| 0 <= i < 4 ==> #[trigger] unit_offset(order@[i]),
    ensures
        (final(sandbox).cells@, (to.0 as int, to.1 as int))
            == electricity_outcome(old(sandbox).cells@, x as int, y as int, order@),
        final(sandbox).sized(),
        old(sandbox).wf() ==> final(sandbox).wf(),
        in_grid(to.0 as int, to.1 as int),
        same_frame(*final(sandbox), *old(sandbox)),
        final(sandbox).rng == old(sandbox).rng,
{
    let ghost g = sandbox.cells@;
    let p = sandbox.get(x, y).unwrap();
    proof {
        if old(sandbox).wf() {
            assert(cell_ok(g[x * SANDBOX_HEIGHT + y]));
        }
    }
    if p.extra_data2 != 0 {
        let mut q = p;
        q.extra_data2 = q.extra_data2.wrapping_sub(1);
        sandbox.set(x, y, Some(q));
        let (dx, dy): (isize, isize) = match p.extra_data1 {
            0 => (1, 0),
            1 => (-1, 0),
            2 => (0, 1),
            _ => (0, -1),
        };
        proof { assert(q == with_extra2(p, p.extra_data2.wrapping_sub(1))); }
        if let Some((x2, y2)) = neighbour(x, y, dx, dy) {
            if is_water(sandbox, x2, y2) {
                sandbox.swap(x, y, x2, y2);
                return (x2, y2);
            }
        }
        return (x, y);
    }
    let mut i: usize = 0;
    while i < 4
        invariant
            0 <= i <= 4,
            sandbox.cells@ == g,
            g == old(sandbox).cells@,
            movable(*sandbox, x as int, y as int),
            same_frame(*sandbox, *old(sandbox)),
            sandbox.rng == old(sandbox).rng,
            at(g, x as int, y as int) == Some(p),
            p.extra_data2 == 0,
            forall|j: int| 0 <= j < 4 ==> #[trigger] unit_offset(order@[j]),
            first_water(g, x as int, y as int, order@, 0) == first_water(g, x as int, y as int, order@, i as int),
        decreases 4 - i,
    {
        let (dx, dy) = order[i];
        proof { assert(unit_offset(order@[i as int])); }
        if let Some((x2, y2)) = neighbour(x, y, dx, dy) {
            if is_water(sandbox, x2, y2) {
                proof {
                    assert(first_water(g, x as int, y as int, order@, i as int) == i);
                }
                sandbox.swap(x, y, x2, y2);
                return (x2, y2);
            }
        }
        proof {
            assert(first_water(g, x as int, y as int, order@, i as int)
                == first_water(g, x as int, y as int, order@, i + 1));
        }
        i = i + 1;
    }
    if y != SANDBOX_HEIGHT - 1 {
        match sandbox.get(x, y + 1) {
            None => {
                sandbox.swap(x, y, x, y + 1);
                return (x, y + 1);
            },
            Some(below) => {
                if below.ptype != ParticleType::Replicator {
                    let mut q = p;
                    q.extra_data2 = -1;
                    sandbox.set(x, y, Some(q));
                    proof { assert(q == with_extra2(p, -1i8)); }
                }
            },
        }
    } else {
        let mut q = p;
        q.extra_data2 = -1;
        sandbox.set(x, y, Some(q));
        proof { assert(q == with_extra2(p, -1i8)); }
    }
    (x, y)
}

/// Moves the Electricity particle at `(x, y)` (see `electricity_outcome`).
/// A particle that is not travelling tries the four directions in an order
/// drawn by shuffling them.
pub fn move_electricity(sandbox: &mut Sandbox, x: usize, y: usize) -> (to: (usize, usize))
    requires
        movable(*old(sandbox), x as int, y as int),
        electricity_ready(old(sandbox).cells@, x as int, y as int),
    ensures
        exists|order: Seq<(isize, isize)>|
            order.to_multiset() == base_offsets().to_multiset()
            && (final(sandbox).cells@, (to.0 as int, to.1 as int))
                == #[trigger] electricity_outcome(old(sandbox).cells@, x as int, y as int, order),
        final(sandbox).sized(),
        old(sandbox).wf() ==> final(sandbox).wf(),
        in_grid(to.0 as int, to.1 as int),
        same_frame(*final(sandbox), *old(sandbox)),
{
    let p = sandbox.get(x, y).unwrap();
    let mut offsets: [(isize, isize); 4] = [(1, 0), (-1, 0), (0, 1), (0, -1)];
    proof { assert(offsets@ =~= base_offsets()); }
    if p.extra_data2 == 0 {
        shuffle_four(&mut sandbox.rng, &mut offsets);
    }
    proof {
        broadcast use vstd::seq_lib::group_to_multiset_ensures;
        assert forall|i: int| 0 <= i < 4 implies #[trigger] unit_offset(offsets@[i]) by {
            let o = offsets@[i];
            assert(offsets@.contains(o));
            assert(offsets@.to_multiset().count(o) > 0);
            assert(base_offsets().contains(o));
            let k = choose|k: int| 0 <= k < 4 && base_offsets()[k] == o;
            assert(unit_offset(base_offsets()[k]));
        }
    }
    let to = move_electricity_with(sandbox, x, y, &offsets);
    to
}

/// `e + 1`, saturating at `i8::MAX`.
pub open spec fn inc_sat(e: i8) -> i8 {
    if e == i8::MAX { e } else { (e + 1) as i8 }
}

/// `e - 1`, saturating at `i8::MIN`.
pub open spec fn dec_sat(e: i8) -> i8 {
    if e == i8::MIN { e } else { (e - 1) as i8 }
}

fn i8_saturating_add_one(e: i8) -> (r: i8)
    ensures
        r == inc_sat(e),
{
    if e == i8::MAX { e } else { e + 1 }
}

fn i8_saturating_sub_one(e: i8) -> (r: i8)
    ensures
        r == dec_sat(e),
{
    if e == i8::MIN { e } else { e - 1 }
}

/// The number of consecutive empty cells in column `x` from row `y` down.
pub open spec fn empty_run(g: Seq<Option<Particle>>, x: int, y: int) -> int
    decreases SANDBOX_HEIGHT - y,
{
    if y < 0 || y >= SANDBOX_HEIGHT || at(g, x, y) is Some {
        0
    } else {
        1 + empty_run(g, x, y + 1)
    }
}

/// Whether the drop below `(x, y)` is shorter than 31 cells, short enough
/// for Life to walk over the edge.
pub open spec fn drop_short(g: Seq<Option<Particle>>, x: int, y: int) -> bool {
    empty_run(g, x, y + 1) < 31
}

/// The kind of the particle at `(x, y)`.
pub open spec fn kind_at(g: Seq<Option<Particle>>, x: int, y: int) -> ParticleType {
    at(g, x, y).unwrap().ptype
}

/// A Life particle that has landed: a fall counter above 60 kills it
/// (`extra_data2 = 1`), else the counter is reset.
pub open spec fn life_landed(p: Particle) -> Particle {
    if p.extra_data1 > 60 { with_extra2(p, 1i8) } else { with_extra1(p, 0i8) }
}

/// Whether a landed Life particle `q` at `(x, y)` of `g` can walk to the side
/// `dx` (-1 or 1): it is alive and the cell there is empty with a short
/// enough drop below it.
pub open spec fn walk_open(g: Seq<Option<Particle>>, q: Particle, x: int, y: int, dx: int) -> bool {
    q.extra_data2 == 0 && (if dx < 0 { x != 0 } else { x != SANDBOX_WIDTH - 1 })
        && drop_short(g, x + dx, y) && vacant(g, x + dx, y)
}

/// What a Life move does to grid `g` and where the particle ends up, with
/// the coin `right_first` given.
///
/// Life falls one cell if it can, counting the fall in `extra_data1`. Having
/// landed (see `life_landed`), a living particle walks one cell to the left
/// or to the right onto an empty cell whose drop is short enough (see
/// `walk_open`), the coin choosing when both sides are open.
pub open spec fn life_outcome(g: Seq<Option<Particle>>, x: int, y: int, right_first: bool) -> (Seq<Option<Particle>>, (int, int)) {
    let p = at(g, x, y).unwrap();
    if y != SANDBOX_HEIGHT - 1 && vacant(g, x, y + 1) {
        let q = with_extra1(p, inc_sat(p.extra_data1));
        (swapped(put(g, x, y, Some(q)), x, y, x, y + 1), (x, y + 1))
    } else {
        let q = life_landed(p);
        let g1 = put(g, x, y, Some(q));
        let l = walk_open(g1, q, x, y, -1);
        let r = walk_open(g1, q, x, y, 1);
        if l && !(r && right_first) {
            (swapped(g1, x, y, x - 1, y), (x - 1, y))
        } else if r {
            (swapped(g1, x, y, x + 1, y), (x + 1, y))
        } else {
            (g1, (x, y))
        }
    }
}

/// Whether a Life move at `(x, y)` flips a coin: the particle cannot fall
/// and, once landed, can walk to either side.
pub open spec fn life_tie(g: Seq<Option<Particle>>, x: int, y: int) -> bool {
    let q = life_landed(at(g, x, y).unwrap());
    let g1 = put(g, x, y, Some(q));
    &&& !(y != SANDBOX_HEIGHT - 1 && vacant(g, x, y + 1))
    &&& walk_open(g1, q, x, y, -1)
    &&& walk_open(g1, q, x, y, 1)
}

/// Whether the drop below `(x, y)` is short enough (see `drop_short`).
fn drop_is_short_enough(sb: &Sandbox, x: usize, y: usize) -> (b: bool)
    requires
        sb.sized(),
        in_grid(x as int, y as int),
    ensures
        b == drop_short(sb.cells@, x as int, y as int),
{
    let ghost g = sb.cells@;
    let mut y2: usize = y + 1;
    let mut drop_size: usize = 0;
    while y2 < SANDBOX_HEIGHT
        invariant
            y < y2 <= SANDBOX_HEIGHT,
            sb.sized(),
            sb.cells@ == g,
            in_grid(x as int, y as int),
            drop_size + empty_run(g, x as int, y2 as int) == empty_run(g, x as int, y + 1),
            drop_size <= y2,
        ensures
            drop_size == empty_run(g, x as int, y + 1),
        decreases SANDBOX_HEIGHT - y2,
    {
        if sb.get(x, y2).is_none() {
            drop_size = drop_size + 1;
        } else {
            break;
        }
        y2 = y2 + 1;
    }
    drop_size < 31
}

/// Moves the Life particle at `(x, y)` (see `life_outcome`) with the coin
/// `right_first` given.
pub fn move_life_with(sandbox: &mut Sandbox, x: usize, y: usize, right_first: bool) -> (to: (usize, usize))
    requires
        movable(*old(sandbox), x as int, y as int),
        at(old(sandbox).cells@, x as int, y as int) is Some,
    ensures
        (final(sandbox).cells@, (to.0 as int, to.1 as int)) == life_outcome(old(sandbox).cells@, x as int, y as int, right_first),
        final(sandbox).sized(),
        old(sandbox).wf() && kind_at(old(sandbox).cells@, x as int, y as int) != ParticleType::Electricity
            ==> final(sandbox).wf(),
        in_grid(to.0 as int, to.1 as int),
        at(final(sandbox).cells@, to.0 as int, to.1 as int) is Some,
        kind_at(final(sandbox).cells@, to.0 as int, to.1 as int) == kind_at(old(sandbox).cells@, x as int, y as int),
        same_frame(*final(sandbox), *old(sandbox)),
        final(sandbox).rng == old(sandbox).rng,
{
    let ghost g = sandbox.cells@;
    let p = sandbox.get(x, y).unwrap();
    if y != SANDBOX_HEIGHT - 1 {
        if is_vacant(sandbox, x, y + 1) {
            let mut q = p;
            q.extra_data1 = i8_saturating_add_one(p.extra_data1);
            proof { assert(q == with_extra1(p, inc_sat(p.extra_data1))); }
            sandbox.set(x, y, Some(q));
            sandbox.swap(x, y, x, y + 1);
            return (x, y + 1);
        }
    }
    let q = landed(p);
    sandbox.set(x, y, Some(q));
    let l = can_walk(sandbox, q, x, y, true);
    let r = can_walk(sandbox, q, x, y, false);
    if l && !(r && right_first) {
        sandbox.swap(x, y, x - 1, y);
        return (x - 1, y);
    }
    if r {
        sandbox.swap(x, y, x + 1, y);
        return (x + 1, y);
    }
    (x, y)
}

/// The Life particle `p` once landed (see `life_landed`).
fn landed(p: Particle) -> (q: Particle)
    ensures
        q == life_landed(p),
{
    let mut q = p;
    if p.extra_data1 > 60 {
        q.extra_data2 = 1;
    } else {
        q.extra_data1 = 0;
    }
    q
}

/// Whether the landed Life particle `q` at `(x, y)` can walk to the left
/// (else the right) (see `walk_open`).
fn can_walk(sb: &Sandbox, q: Particle, x: usize, y: usize, left: bool) -> (b: bool)
    requires
        sb.sized(),
        in_grid(x as int, y as int),
    ensures
        b == walk_open(sb.cells@, q, x as int, y as int, if left { -1int } else { 1int }),
{
    if q.extra_data2 != 0 {
        return false;
    }
    if left {
        x != 0 && drop_is_short_enough(sb, x - 1, y) && is_vacant(sb, x - 1, y)
    } else {
        x != SANDBOX_WIDTH - 1 && drop_is_short_enough(sb, x + 1, y) && is_vacant(sb, x + 1, y)
    }
}

/// Moves the Life particle at `(x, y)` (see `life_outcome`). When it can walk
/// to either side (`life_tie`) a fair coin picks the side; otherwise nothing
/// is drawn.
pub fn move_life(sandbox: &mut Sandbox, x: usize, y: usize) -> (to: (usize, usize))
    requires
        movable(*old(sandbox), x as int, y as int),
        at(old(sandbox).cells@, x as int, y as int) is Some,
    ensures
        exists|right_first: bool| (final(sandbox).cells@, (to.0 as int, to.1 as int))
            == #[trigger] life_outcome(old(sandbox).cells@, x as int, y as int, right_first),
        final(sandbox).sized(),
        old(sandbox).wf() && kind_at(old(sandbox).cells@, x as int, y as int) != ParticleType::Electricity
            ==> final(sandbox).wf(),
        in_grid(to.0 as int, to.1 as int),
        at(final(sandbox).cells@, to.0 as int, to.1 as int) is Some,
        kind_at(final(sandbox).cells@, to.0 as int, to.1 as int) == kind_at(old(sandbox).cells@, x as int, y as int),
        same_frame(*final(sandbox), *old(sandbox)),
        !life_tie(old(sandbox).cells@, x as int, y as int) ==> final(sandbox).rng == old(sandbox).rng,
{
    let ghost g = sandbox.cells@;
    let p = sandbox.get(x, y).unwrap();
    let falls = y != SANDBOX_HEIGHT - 1 && is_vacant(sandbox, x, y + 1);
    let q = landed(p);
    let ghost g1 = put(g, x as int, y as int, Some(q));
    proof {
        lemma_coords(x as int, y as int);
        assert forall|dx: int| dx == -1 || dx == 1 implies
            walk_open(g1, q, x as int, y as int, dx) == walk_open(g, q, x as int, y as int, dx) by {
            lemma_walk_other_cell(g, x as int, y as int, Some(q), dx);
        }
    }
    let l = can_walk(sandbox, q, x, y, true);
    let r = can_walk(sandbox, q, x, y, false);
    let right_first = coin_if(sandbox, !falls && l && r);
    move_life_with(sandbox, x, y, right_first)
}

/// Changing the cell `(x, y)` changes nothing about walking from it to a
/// side: the drop and the target are in another column.
proof fn lemma_walk_other_cell(g: Seq<Option<Particle>>, x: int, y: int, c: Option<Particle>, dx: int)
    requires
        g.len() == n_cells(),
        in_grid(x, y),
        dx == -1 || dx == 1,
    ensures
        forall|q: Particle| walk_open(put(g, x, y, c), q, x, y, dx) == #[trigger] walk_open(g, q, x, y, dx),
{
    let h = put(g, x, y, c);
    if in_grid(x + dx, y) {
        lemma_empty_run_other_column(g, h, x, y, x + dx, y + 1);
        lemma_cell_index(x + dx, y, x, y);
    }
}

/// Two grids that differ only in column `x` have the same empty runs in
/// column `cx != x`.
proof fn lemma_empty_run_other_column(g: Seq<Option<Particle>>, h: Seq<Option<Particle>>, x: int, y: int, cx: int, from: int)
    requires
        g.len() == n_cells(),
        in_grid(x, y),
        0 <= cx < SANDBOX_WIDTH,
        cx != x,
        h == put(g, x, y, h[cell_index(x, y)]),
    ensures
        empty_run(h, cx, from) == empty_run(g, cx, from),
    decreases SANDBOX_HEIGHT - from,
{
    if 0 <= from < SANDBOX_HEIGHT {
        lemma_cell_index(cx, from, x, y);
        lemma_empty_run_other_column(g, h, x, y, cx, from + 1);
    }
}

/// Where a SuperLife particle goes before it walks: it trades places with an
/// adjacent Life particle, looking below, right, above and left in that order.
pub open spec fn super_swap(g: Seq<Option<Particle>>, x: int, y: int) -> (Seq<Option<Particle>>, (int, int)) {
    if y != SANDBOX_HEIGHT - 1 && holds_kind(g, x, y + 1, ParticleType::Life) {
        (swapped(g, x, y, x, y + 1), (x, y + 1))
    } else if x != SANDBOX_WIDTH - 1 && holds_kind(g, x + 1, y, ParticleType::Life) {
        (swapped(g, x, y, x + 1, y), (x + 1, y))
    } else if y != 0 && holds_kind(g, x, y - 1, ParticleType::Life) {
        (swapped(g, x, y, x, y - 1), (x, y - 1))
    } else if x != 0 && holds_kind(g, x - 1, y, ParticleType::Life) {
        (swapped(g, x, y, x - 1, y), (x - 1, y))
    } else {
        (g, (x, y))
    }
}

/// What a SuperLife move does: the swap of `super_swap`, then two Life
/// moves, with the coins `c1` and `c2` of the two moves given.
pub open spec fn super_life_outcome(g: Seq<Option<Particle>>, x: int, y: int, c1: bool, c2: bool) -> (Seq<Option<Particle>>, (int, int)) {
    let (g1, p1) = super_swap(g, x, y);
    let (g2, p2) = life_outcome(g1, p1.0, p1.1, c1);
    life_outcome(g2, p2.0, p2.1, c2)
}

/// Moves the SuperLife particle at `(x, y)` (see `super_life_outcome`).
#[verifier::rlimit(50)]
pub fn move_super_life(sandbox: &mut Sandbox, x: usize, y: usize) -> (to: (usize, usize))
    requires
        movable(*old(sandbox), x as int, y as int),
        at(old(sandbox).cells@, x as int, y as int) is Some,
    ensures
        exists|c1: bool, c2: bool| (final(sandbox).cells@, (to.0 as int, to.1 as int))
            == #[trigger] super_life_outcome(old(sandbox).cells@, x as int, y as int, c1, c2),
        final(sandbox).sized(),
        old(sandbox).wf() && kind_at(old(sandbox).cells@, x as int, y as int) != ParticleType::Electricity
            ==> final(sandbox).wf(),
        in_grid(to.0 as int, to.1 as int),
        at(final(sandbox).cells@, to.0 as int, to.1 as int) is Some,
        kind_at(final(sandbox).cells@, to.0 as int, to.1 as int) == kind_at(old(sandbox).cells@, x as int, y as int),
        same_frame(*final(sandbox), *old(sandbox)),
{
    let ghost g = sandbox.cells@;
    let ghost (x0, y0) = (x as int, y as int);
    let mut x = x;
    let mut y = y;
    let mut swapped_once = false;
    if !swapped_once && y != SANDBOX_HEIGHT - 1 {
        if let Some(particle) = sandbox.get(x, y + 1) {
            if particle.ptype == ParticleType::Life {
                sandbox.swap(x, y, x, y + 1);
                y = y + 1;
                swapped_once = true;
            }
        }
    }
    if !swapped_once && x != SANDBOX_WIDTH - 1 {
        if let Some(particle) = sandbox.get(x + 1, y) {
            if particle.ptype == ParticleType::Life {
                sandbox.swap(x, y, x + 1, y);
                x = x + 1;
                swapped_once = true;
            }
        }
    }
    if !swapped_once && y != 0 {
        if let Some(particle) = sandbox.get(x, y - 1) {
            if particle.ptype == ParticleType::Life {
                sandbox.swap(x, y, x, y - 1);
                y = y - 1;
                swapped_once = true;
            }
        }
    }
    if !swapped_once && x != 0 {
        if let Some(particle) = sandbox.get(x - 1, y) {
            if particle.ptype == ParticleType::Life {
                sandbox.swap(x, y, x - 1, y);
                x = x - 1;
            }
        }
    }
    assert((sandbox.cells@, (x as int, y as int)) == super_swap(g, x0, y0));
    let ghost g1 = sandbox.cells@;
    let (x2, y2) = move_life(sandbox, x, y);
    let ghost c1 = choose|c: bool| (sandbox.cells@, (x2 as int, y2 as int)) == #[trigger] life_outcome(g1, x as int, y as int, c);
    let ghost g2 = sandbox.cells@;
    let (x3, y3) = move_life(sandbox, x2, y2);
    let ghost c2 = choose|c: bool| (sandbox.cells@, (x3 as int, y3 as int)) == #[trigger] life_outcome(g2, x2 as int, y2 as int, c);
    assert((sandbox.cells@, (x3 as int, y3 as int)) == super_life_outcome(g, x0, y0, c1, c2));
    (x3, y3)
}

/// What a Fire move does: it moves as a gas (with coins `rise` and
/// `right_first`), then counts in `extra_data2` how long it has stayed in its
/// row: one more when its row did not change, one less (saturating) when it
/// did.
pub open spec fn fire_outcome(g: Seq<Option<Particle>>, x: int, y: int, rise: bool, right_first: bool) -> (Seq<Option<Particle>>, (int, int)) {
    let d = gas_dest(g, x, y, rise, right_first);
    let g1 = swapped(g, x, y, d.0, d.1);
    let p = at(g1, d.0, d.1).unwrap();
    let e = if d.1 == y { p.extra_data2.wrapping_add(1) } else { dec_sat(p.extra_data2) };
    (put(g1, d.0, d.1, Some(with_extra2(p, e))), d)
}

/// Moves the Fire particle at `(x, y)` (see `fire_outcome`) with the coins
/// `rise` and `right_first` given.
pub fn move_fire_with(sandbox: &mut Sandbox, x: usize, y: usize, rise: bool, right_first: bool) -> (to: (usize, usize))
    requires
        movable(*old(sandbox), x as int, y as int),
        at(old(sandbox).cells@, x as int, y as int) is Some,
    ensures
        (final(sandbox).cells@, (to.0 as int, to.1 as int)) == fire_outcome(old(sandbox).cells@, x as int, y as int, rise, right_first),
        final(sandbox).sized(),
        old(sandbox).wf() ==> final(sandbox).wf(),
        in_grid(to.0 as int, to.1 as int),
        same_frame(*final(sandbox), *old(sandbox)),
        final(sandbox).rng == old(sandbox).rng,
{
    let ghost g = sandbox.cells@;
    let to = move_gas_with(sandbox, x, y, rise, right_first);
    let p = sandbox.get(to.0, to.1).unwrap();
    let mut q = p;
    if to.1 == y {
        q.extra_data2 = p.extra_data2.wrapping_add(1);
    } else {
        q.extra_data2 = i8_saturating_sub_one(p.extra_data2);
    }
    proof {
        if old(sandbox).wf() {
            assert(cell_ok(sandbox.cells@[to.0 * SANDBOX_HEIGHT + to.1]));
        }
    }
    sandbox.set(to.0, to.1, Some(q));
    to
}

/// Moves the Fire particle at `(x, y)` (see `fire_outcome`), drawing its
/// coins as a gas does (see `gas_coins`).
pub fn move_fire(sandbox: &mut Sandbox, x: usize, y: usize) -> (to: (usize, usize))
    requires
        movable(*old(sandbox), x as int, y as int),
        at(old(sandbox).cells@, x as int, y as int) is Some,
    ensures
        exists|rise: bool, right_first: bool| (final(sandbox).cells@, (to.0 as int, to.1 as int))
            == #[trigger] fire_outcome(old(sandbox).cells@, x as int, y as int, rise, right_first),
        final(sandbox).sized(),
        old(sandbox).wf() ==> final(sandbox).wf(),
        in_grid(to.0 as int, to.1 as int),
        same_frame(*final(sandbox), *old(sandbox)),
        y == 0 && !gas_tie(old(sandbox).cells@, x as int, y as int, false) ==> final(sandbox).rng == old(sandbox).rng,
{
    let (rise, right_first) = gas_coins(sandbox, x, y);
    move_fire_with(sandbox, x, y, rise, right_first)
}

/// What an update rule relies on: buffers of the right sizes, a cell on the
/// grid, and a particle in it.
pub open spec fn updatable(sb: Sandbox, x: int, y: int) -> bool {
    &&& sb.sized()
    &&& in_grid(x, y)
    &&& at(sb.cells@, x, y) is Some
}

/// An update rule that changed only the grid.
pub open spec fn grid_changed(old: Sandbox, new: Sandbox) -> bool {
    &&& new.sized()
    &&& same_frame(new, old)
}

/// Sand: wet sand (`extra_data1 == 1`) at 30 degrees or more dries out, and
/// at 120 degrees or more sand turns into Glass.
pub open spec fn sand_outcome(g: Seq<Option<Particle>>, x: int, y: int) -> Seq<Option<Particle>> {
    let p = at(g, x, y).unwrap();
    let q = if p.extra_data1 == 1 && p.temperature >= 30 { with_extra1(p, 0i8) } else { p };
    let q = if q.temperature >= 120 { Particle { ptype: ParticleType::Glass, ..q } } else { q };
    put(g, x, y, Some(q))
}

/// Applies the Sand rule to the particle at `(x, y)` (see `sand_outcome`).
pub fn update_sand(sandbox: &mut Sandbox, x: usize, y: usize)
    requires
        updatable(*old(sandbox), x as int, y as int),
    ensures
        final(sandbox).cells@ == sand_outcome(old(sandbox).cells@, x as int, y as int),
        grid_changed(*old(sandbox), *final(sandbox)),
        old(sandbox).wf() ==> final(sandbox).wf(),
        final(sandbox).rng == old(sandbox).rng,
{
    let p = sandbox.get(x, y).unwrap();
    proof { if old(sandbox).wf() { assert(cell_ok(sandbox.cells@[x * SANDBOX_HEIGHT + y])); } }
    let mut q = p;
    if q.extra_data1 == 1 && q.temperature >= 30 {
        q.extra_data1 = 0;
    }
    if q.temperature >= 120 {
        q.ptype = ParticleType::Glass;
    }
    sandbox.set(x, y, Some(q));
}

/// Electricity: a particle that could not move (`extra_data2 == -1`) is deleted.
pub open spec fn electricity_update_outcome(g: Seq<Option<Particle>>, x: int, y: int) -> Seq<Option<Particle>> {
    if at(g, x, y).unwrap().extra_data2 == -1 { put(g, x, y, None) } else { g }
}

/// Applies the Electricity rule to the particle at `(x, y)`.
pub fn update_electricity(sandbox: &mut Sandbox, x: usize, y: usize)
    requires
        updatable(*old(sandbox), x as int, y as int),
    ensures
        final(sandbox).cells@ == electricity_update_outcome(old(sandbox).cells@, x as int, y as int),
        grid_changed(*old(sandbox), *final(sandbox)),
        old(sandbox).wf() ==> final(sandbox).wf(),
        final(sandbox).rng == old(sandbox).rng,
{
    if sandbox.get(x, y).unwrap().extra_data2 == -1 {
        sandbox.set(x, y, None);
    }
}

/// Blood: evaporates (is deleted) at 137 degrees or more.
pub open spec fn blood_outcome(g: Seq<Option<Particle>>, x: int, y: int) -> Seq<Option<Particle>> {
    if at(g, x, y).unwrap().temperature >= 137 { put(g, x, y, None) } else { g }
}

/// Applies the Blood rule to the particle at `(x, y)`.
pub fn update_blood(sandbox: &mut Sandbox, x: usize, y: usize)
    requires
        updatable(*old(sandbox), x as int, y as int),
    ensures
        final(sandbox).cells@ == blood_outcome(old(sandbox).cells@, x as int, y as int),
        grid_changed(*old(sandbox), *final(sandbox)),
        old(sandbox).wf() ==> final(sandbox).wf(),
        final(sandbox).rng == old(sandbox).rng,
{
    if sandbox.get(x, y).unwrap().temperature >= 137 {
        sandbox.set(x, y, None);
    }
}

/// Steam: condenses into Water below 100 degrees.
pub open spec fn steam_outcome(g: Seq<Option<Particle>>, x: int, y: int) -> Seq<Option<Particle>> {
    let p = at(g, x, y).unwrap();
    if p.temperature < 100 { put(g, x, y, Some(Particle { ptype: ParticleType::Water, ..p })) } else { g }
}

/// Applies the Steam rule to the particle at `(x, y)`.
pub fn update_steam(sandbox: &mut Sandbox, x: usize, y: usize)
    requires
        updatable(*old(sandbox), x as int, y as int),
    ensures
        final(sandbox).cells@ == steam_outcome(old(sandbox).cells@, x as int, y as int),
        grid_changed(*old(sandbox), *final(sandbox)),
        old(sandbox).wf() ==> final(sandbox).wf(),
        final(sandbox).rng == old(sandbox).rng,
{
    let p = sandbox.get(x, y).unwrap();
    if p.temperature < 100 {
        let mut q = p;
        q.ptype = ParticleType::Water;
        sandbox.set(x, y, Some(q));
    }
}

/// Smoke: `extra_data1` counts down first; once it is 0, `extra_data2`
/// counts down (wrapping) and the particle is deleted when it reaches 0.
pub open spec fn smoke_outcome(g: Seq<Option<Particle>>, x: int, y: int) -> Seq<Option<Particle>> {
    let p = at(g, x, y).unwrap();
    if p.extra_data1 == 0 {
        let e = p.extra_data2.wrapping_sub(1);
        if e == 0 { put(g, x, y, None) } else { put(g, x, y, Some(with_extra2(p, e))) }
    } else {
        put(g, x, y, Some(with_extra1(p, p.extra_data1.wrapping_sub(1))))
    }
}

/// Applies the Smoke rule to the particle at `(x, y)`.
pub fn update_smoke(sandbox: &mut Sandbox, x: usize, y: usize)
    requires
        updatable(*old(sandbox), x as int, y as int),
    ensures
        final(sandbox).cells@ == smoke_outcome(old(sandbox).cells@, x as int, y as int),
        grid_changed(*old(sandbox), *final(sandbox)),
        old(sandbox).wf() ==> final(sandbox).wf(),
        final(sandbox).rng == old(sandbox).rng,
{
    let p = sandbox.get(x, y).unwrap();
    proof { if old(sandbox).wf() { assert(cell_ok(sandbox.cells@[x * SANDBOX_HEIGHT + y])); } }
    let mut q = p;
    if q.extra_data1 == 0 {
        q.extra_data2 = q.extra_data2.wrapping_sub(1);
        if q.extra_data2 == 0 {
            sandbox.set(x, y, None);
        } else {
            sandbox.set(x, y, Some(q));
        }
    } else {
        q.extra_data1 = q.extra_data1.wrapping_sub(1);
        sandbox.set(x, y, Some(q));
    }
}

/// The row below `from` in column `x` to which a Mirror teleports: the first
/// empty cell at or below `from`, passing only over Mirror particles;
/// `SANDBOX_HEIGHT` when a non-Mirror particle or the bottom comes first.
pub open spec fn mirror_exit(g: Seq<Option<Particle>>, x: int, from: int) -> int
    decreases SANDBOX_HEIGHT - from,
{
    if from < 0 || from >= SANDBOX_HEIGHT {
        SANDBOX_HEIGHT as int
    } else if at(g, x, from) is None {
        from
    } else if at(g, x, from).unwrap().ptype != ParticleType::Mirror {
        SANDBOX_HEIGHT as int
    } else {
        mirror_exit(g, x, from + 1)
    }
}

/// Mirror: the frame counter `extra_data1` advances (wrapping) and restarts
/// at 0 past 120; a non-Mirror particle right above is teleported to the
/// cell of `mirror_exit` below the mirror, if there is one.
pub open spec fn mirror_outcome(g: Seq<Option<Particle>>, x: int, y: int) -> Seq<Option<Particle>> {
    let p = at(g, x, y).unwrap();
    let e = p.extra_data1.wrapping_add(1);
    let g1 = put(g, x, y, Some(with_extra1(p, if e > 120 { 0i8 } else { e })));
    if y != 0 && at(g1, x, y - 1) is Some && at(g1, x, y - 1).unwrap().ptype != ParticleType::Mirror {
        let t = mirror_exit(g1, x, y + 1);
        if t < SANDBOX_HEIGHT { swapped(g1, x, y - 1, x, t) } else { g1 }
    } else {
        g1
    }
}

/// Applies the Mirror rule to the particle at `(x, y)` (see `mirror_outcome`).
pub fn update_mirror(sandbox: &mut Sandbox, x: usize, y: usize)
    requires
        updatable(*old(sandbox), x as int, y as int),
    ensures
        final(sandbox).cells@ == mirror_outcome(old(sandbox).cells@, x as int, y as int),
        grid_changed(*old(sandbox), *final(sandbox)),
        old(sandbox).wf() && kind_at(old(sandbox).cells@, x as int, y as int) != ParticleType::Electricity
            ==> final(sandbox).wf(),
        final(sandbox).rng == old(sandbox).rng,
{
    let p = sandbox.get(x, y).unwrap();
    let mut q = p;
    q.extra_data1 = q.extra_data1.wrapping_add(1);
    if q.extra_data1 > 120 {
        q.extra_data1 = 0;
    }
    sandbox.set(x, y, Some(q));
    let ghost g1 = sandbox.cells@;
    if y != 0 {
        if let Some(above) = sandbox.get(x, y - 1) {
            if above.ptype != ParticleType::Mirror {
                let mut new_y = y + 1;
                let ghost goal = mirror_outcome(old(sandbox).cells@, x as int, y as int);
                assert(goal == (if mirror_exit(g1, x as int, y + 1) < SANDBOX_HEIGHT {
                    swapped(g1, x as int, y - 1, x as int, mirror_exit(g1, x as int, y + 1))
                } else {
                    g1
                }));
                while new_y != SANDBOX_HEIGHT
                    invariant
                        0 < y < new_y <= SANDBOX_HEIGHT,
                        sandbox.cells@ == g1,
                        sandbox.sized(),
                        same_frame(*sandbox, *old(sandbox)),
                        sandbox.rng == old(sandbox).rng,
                        old(sandbox).wf() && kind_at(old(sandbox).cells@, x as int, y as int) != ParticleType::Electricity
                            ==> sandbox.wf(),
                        in_grid(x as int, y as int),
                        goal == mirror_outcome(old(sandbox).cells@, x as int, y as int),
                        goal == (if mirror_exit(g1, x as int, new_y as int) < SANDBOX_HEIGHT {
                            swapped(g1, x as int, y - 1, x as int, mirror_exit(g1, x as int, new_y as int))
                        } else {
                            g1
                        }),
                        mirror_exit(g1, x as int, y + 1) == mirror_exit(g1, x as int, new_y as int),
                    decreases SANDBOX_HEIGHT - new_y,
                {
                    match sandbox.get(x, new_y) {
                        None => {
                            sandbox.swap(x, y - 1, x, new_y);
                            return;
                        },
                        Some(below) => {
                            if below.ptype != ParticleType::Mirror {
                                return;
                            }
                        },
                    }
                    new_y = new_y + 1;
                }
            }
        }
    }
}

/// The two area effects that change temperatures around a particle.
#[derive(Clone, Copy, PartialEq, Eq, Structural, Debug)]
pub enum Blast {
    /// Acid dissolving Water warms every particle within 3 cells (a 7x7
    /// square, the acid's own cell excluded) by 2 degrees.
    Warm,
    /// A Cryotheum cold snap chills every particle within distance 15
    /// (`dx * dx + dy * dy <= 225`) that cold snaps affect by 100 degrees.
    Chill,
}

/// How far a blast reaches along each axis.
pub open spec fn blast_radius(b: Blast) -> int {
    match b {
        Blast::Warm => 3,
        Blast::Chill => 15,
    }
}

/// Whether offset `(dx, dy)` from the centre lies in the area of blast `b`.
pub open spec fn in_blast(b: Blast, dx: int, dy: int) -> bool {
    match b {
        Blast::Warm => -3 <= dx <= 3 && -3 <= dy <= 3 && !(dx == 0 && dy == 0),
        Blast::Chill => -15 <= dx <= 15 && -15 <= dy <= 15 && dx * dx + dy * dy <= 225,
    }
}

/// What blast `b` does to one cell of its area (temperatures wrap).
pub open spec fn blasted(b: Blast, c: Option<Particle>) -> Option<Particle> {
    match c {
        Some(p) => match b {
            Blast::Warm => Some(Particle { temperature: p.temperature.wrapping_add(2), ..p }),
            Blast::Chill => if coldsnap_affects(p.ptype) {
                Some(Particle { temperature: p.temperature.wrapping_sub(100), ..p })
            } else {
                c
            },
        },
        None => None,
    }
}

/// Grid `g` after blast `b` centred on `(x, y)`.
pub open spec fn blast_outcome(g: Seq<Option<Particle>>, b: Blast, x: int, y: int) -> Seq<Option<Particle>> {
    map_cells(g, |cx: int, cy: int, c: Option<Particle>| if in_blast(b, cx - x, cy - y) { blasted(b, c) } else { c })
}

/// Whether offset `(a, c)` comes before `(dx, dy)` in the order the area is
/// walked: column by column, each column top to bottom.
pub open spec fn walked_before(a: int, c: int, dx: int, dy: int) -> bool {
    a < dx || (a == dx && c < dy)
}

/// The cells of `g` whose offsets the walk has passed, blasted.
pub open spec fn blast_partial(g: Seq<Option<Particle>>, b: Blast, x: int, y: int, dx: int, dy: int, cx: int, cy: int) -> Option<Particle> {
    if in_blast(b, cx - x, cy - y) && walked_before(cx - x, cy - y, dx, dy) {
        blasted(b, at(g, cx, cy))
    } else {
        at(g, cx, cy)
    }
}

/// Applies blast `b` centred on `(x, y)`.
fn apply_blast(sandbox: &mut Sandbox, x: usize, y: usize, b: Blast)
    requires
        old(sandbox).sized(),
        in_grid(x as int, y as int),
    ensures
        final(sandbox).cells@ == blast_outcome(old(sandbox).cells@, b, x as int, y as int),
        grid_changed(*old(sandbox), *final(sandbox)),
        old(sandbox).wf() ==> final(sandbox).wf(),
        final(sandbox).rng == old(sandbox).rng,
{
    let ghost g = sandbox.cells@;
    let r: isize = match b {
        Blast::Warm => 3,
        Blast::Chill => 15,
    };
    let mut dx: isize = -r;
    while dx <= r
        invariant
            r == blast_radius(b),
            -r <= dx <= r + 1,
            in_grid(x as int, y as int),
            sandbox.sized(),
            g == old(sandbox).cells@,
            grid_changed(*old(sandbox), *sandbox),
            sandbox.rng == old(sandbox).rng,
            old(sandbox).wf() ==> sandbox.wf(),
            forall|cx: int, cy: int| in_grid(cx, cy) ==> #[trigger] at(sandbox.cells@, cx, cy)
                == blast_partial(g, b, x as int, y as int, dx as int, -r as int, cx, cy),
        decreases r + 1 - dx,
    {
        let mut dy: isize = -r;
        while dy <= r
            invariant
                r == blast_radius(b),
                -r <= dx <= r,
                -r <= dy <= r + 1,
                in_grid(x as int, y as int),
                sandbox.sized(),
                g == old(sandbox).cells@,
                grid_changed(*old(sandbox), *sandbox),
                sandbox.rng == old(sandbox).rng,
                old(sandbox).wf() ==> sandbox.wf(),
                forall|cx: int, cy: int| in_grid(cx, cy) ==> #[trigger] at(sandbox.cells@, cx, cy)
                    == blast_partial(g, b, x as int, y as int, dx as int, dy as int, cx, cy),
            decreases r + 1 - dy,
        {
            let ghost cur = sandbox.cells@;
            let inside = match b {
                Blast::Warm => !(dx == 0 && dy == 0),
                Blast::Chill => {
                    assert(0 <= dx * dx <= 225 && 0 <= dy * dy <= 256) by (nonlinear_arith)
                        requires -15 <= dx <= 15, -15 <= dy <= 16;
                    dx * dx + dy * dy <= 225
                },
            };
            if inside {
                if let Some((cx, cy)) = neighbour(x, y, dx, dy) {
                    if let Some(p) = sandbox.get(cx, cy) {
                        let mut q = p;
                        match b {
                            Blast::Warm => {
                                q.temperature = q.temperature.wrapping_add(2);
                            },
                            Blast::Chill => {
                                if p.affected_by_cryotheum_coldsnap() {
                                    q.temperature = q.temperature.wrapping_sub(100);
                                }
                            },
                        }
                        proof {
                            assert(at(cur, cx as int, cy as int) == at(g, cx as int, cy as int));
                            assert(Some(q) == blasted(b, at(g, cx as int, cy as int)));
                            if old(sandbox).wf() {
                                lemma_coords(cx as int, cy as int);
                                assert(cell_ok(cur[cx * SANDBOX_HEIGHT + cy]));
                            }
                        }
                        sandbox.set(cx, cy, Some(q));
                    }
                }
            }
            proof {
                assert forall|cx: int, cy: int| in_grid(cx, cy) implies #[trigger] at(sandbox.cells@, cx, cy)
                    == blast_partial(g, b, x as int, y as int, dx as int, dy + 1, cx, cy) by {
                    if in_grid(x + dx, y + dy) {
                        lemma_cell_index(cx, cy, x + dx, y + dy);
                    }
                    assert(at(cur, cx, cy) == blast_partial(g, b, x as int, y as int, dx as int, dy as int, cx, cy));
                }
            }
            dy = dy + 1;
        }
        proof {
            assert forall|cx: int, cy: int| in_grid(cx, cy) implies #[trigger] at(sandbox.cells@, cx, cy)
                == blast_partial(g, b, x as int, y as int, dx + 1, -r as int, cx, cy) by {
                assert(at(sandbox.cells@, cx, cy) == blast_partial(g, b, x as int, y as int, dx as int, r + 1, cx, cy));
            }
        }
        dx = dx + 1;
    }
    proof {
        let goal = blast_outcome(g, b, x as int, y as int);
        assert forall|cx: int, cy: int| in_grid(cx, cy) implies #[trigger] at(sandbox.cells@, cx, cy) == at(goal, cx, cy) by {
            lemma_map_cells_at(g, |cx: int, cy: int, c: Option<Particle>| if in_blast(b, cx - x, cy - y) { blasted(b, c) } else { c }, cx, cy);
            assert(at(sandbox.cells@, cx, cy) == blast_partial(g, b, x as int, y as int, r + 1, -r as int, cx, cy));
        }
        lemma_grid_ext(sandbox.cells@, goal);
    }
}

/// Cryotheum: at 0 degrees or more a resting particle (`extra_data1 == 0`)
/// starts a timer of 21; a running timer counts down, and when it reaches 1
/// the particle disappears in a cold snap (see `Blast::Chill`).
pub open spec fn cryotheum_outcome(g: Seq<Option<Particle>>, x: int, y: int) -> Seq<Option<Particle>> {
    let p = at(g, x, y).unwrap();
    if p.temperature >= 0 && p.extra_data1 == 0 {
        put(g, x, y, Some(with_extra1(p, 21i8)))
    } else {
        let q = if p.extra_data1 > 1 { with_extra1(p, (p.extra_data1 - 1) as i8) } else { p };
        if q.extra_data1 == 1 {
            blast_outcome(put(g, x, y, None), Blast::Chill, x, y)
        } else {
            put(g, x, y, Some(q))
        }
    }
}

/// The grid after `n` calls of the Cryotheum rule at `(x, y)` in a row, with
/// nothing else happening in between.
pub open spec fn cryotheum_calls(g: Seq<Option<Particle>>, x: int, y: int, n: nat) -> Seq<Option<Particle>>
    decreases n,
{
    if n == 0 { g } else { cryotheum_outcome(cryotheum_calls(g, x, y, (n - 1) as nat), x, y) }
}

/// The Cryotheum countdown: a resting Cryotheum particle at 0 degrees or more
/// starts its timer at 21 on the first call; each later call counts it down
/// by one and changes nothing else, and the 20th call after the first (a
/// third of a second later, at 60 calls a second) removes the particle in a
/// cold snap (see `Blast::Chill`), no earlier call doing so.
pub proof fn lemma_cryotheum_countdown(g: Seq<Option<Particle>>, x: int, y: int, c: Particle, n: nat)
    requires
        g.len() == n_cells(),
        in_grid(x, y),
        at(g, x, y) == Some(c),
        c.ptype == ParticleType::Cryotheum,
        c.temperature >= 0,
        c.extra_data1 == 0,
        1 <= n <= 21,
    ensures
        n <= 20 ==> cryotheum_calls(g, x, y, n) == put(g, x, y, Some(with_extra1(c, (22 - n) as i8))),
        n == 21 ==> cryotheum_calls(g, x, y, n) == blast_outcome(put(g, x, y, None), Blast::Chill, x, y),
    decreases n,
{
    lemma_coords(x, y);
    if n == 1 {
        assert(cryotheum_calls(g, x, y, 0) == g);
    } else {
        lemma_cryotheum_countdown(g, x, y, c, (n - 1) as nat);
        let h = put(g, x, y, Some(with_extra1(c, (23 - n) as i8)));
        assert(cryotheum_calls(g, x, y, (n - 1) as nat) == h);
        assert(at(h, x, y) == Some(with_extra1(c, (23 - n) as i8)));
        let q = with_extra1(c, (22 - n) as i8);
        assert(put(h, x, y, None) =~= put(g, x, y, None));
        assert(put(h, x, y, Some(q)) =~= put(g, x, y, Some(q)));
    }
}

/// Applies the Cryotheum rule to the particle at `(x, y)`.
pub fn update_cryotheum(sandbox: &mut Sandbox, x: usize, y: usize)
    requires
        updatable(*old(sandbox), x as int, y as int),
    ensures
        final(sandbox).cells@ == cryotheum_outcome(old(sandbox).cells@, x as int, y as int),
        grid_changed(*old(sandbox), *final(sandbox)),
        old(sandbox).wf() && kind_at(old(sandbox).cells@, x as int, y as int) != ParticleType::Electricity
            ==> final(sandbox).wf(),
        final(sandbox).rng == old(sandbox).rng,
{
    let p = sandbox.get(x, y).unwrap();
    proof { if old(sandbox).wf() { assert(cell_ok(sandbox.cells@[x * SANDBOX_HEIGHT + y])); } }
    if p.temperature >= 0 && p.extra_data1 == 0 {
        let mut q = p;
        q.extra_data1 = 21;
        sandbox.set(x, y, Some(q));
        return;
    }
    let mut q = p;
    if q.extra_data1 > 1 {
        q.extra_data1 = q.extra_data1 - 1;
    }
    if q.extra_data1 == 1 {
        sandbox.set(x, y, None);
        apply_blast(sandbox, x, y, Blast::Chill);
    } else {
        sandbox.set(x, y, Some(q));
    }
}

/// The four neighbours in the order the rules look at them: below, right,
/// above, left.
pub open spec fn side(k: int) -> (int, int) {
    if k == 0 { (0, 1) } else if k == 1 { (1, 0) } else if k == 2 { (0, -1) } else { (-1, 0) }
}

/// The `k`-th neighbour of `(x, y)`, if it is on the grid.
fn side_cell(x: usize, y: usize, k: usize) -> (r: Option<(usize, usize)>)
    requires
        in_grid(x as int, y as int),
        k < 4,
    ensures
        r matches Some(c) ==> c.0 == x + side(k as int).0 && c.1 == y + side(k as int).1
            && in_grid(c.0 as int, c.1 as int),
        r is None ==> !in_grid(x + side(k as int).0, y + side(k as int).1),
{
    let (dx, dy): (isize, isize) = if k == 0 { (0, 1) } else if k == 1 { (1, 0) } else if k == 2 { (0, -1) } else { (-1, 0) };
    neighbour(x, y, dx, dy)
}

/// The particle in the `k`-th neighbour of `(x, y)`, if any.
pub open spec fn side_particle(g: Seq<Option<Particle>>, x: int, y: int, k: int) -> Option<Particle> {
    if in_grid(x + side(k).0, y + side(k).1) { at(g, x + side(k).0, y + side(k).1) } else { None }
}

/// The first neighbour, from the `from`-th on, holding a particle that Acid
/// dissolves; 4 when there is none.
pub open spec fn first_dissolvable(g: Seq<Option<Particle>>, x: int, y: int, from: int) -> int
    decreases 4 - from,
{
    if from < 0 || from >= 4 {
        4
    } else if side_particle(g, x, y, from) matches Some(p) && acid_dissolves(p.ptype) {
        from
    } else {
        first_dissolvable(g, x, y, from + 1)
    }
}

/// Acid: with the first neighbour (below, right, above, left) that it
/// dissolves, the acid and that neighbour both disappear; dissolving Water
/// first warms the area around the acid (see `Blast::Warm`).
pub open spec fn acid_outcome(g: Seq<Option<Particle>>, x: int, y: int) -> Seq<Option<Particle>> {
    let k = first_dissolvable(g, x, y, 0);
    if k < 4 {
        let (dx, dy) = side(k);
        let n = at(g, x + dx, y + dy).unwrap();
        let g1 = if n.ptype == ParticleType::Water { blast_outcome(g, Blast::Warm, x, y) } else { g };
        put(put(g1, x, y, None), x + dx, y + dy, None)
    } else {
        g
    }
}

/// Applies the Acid rule to the particle at `(x, y)` (see `acid_outcome`).
pub fn update_acid(sandbox: &mut Sandbox, x: usize, y: usize)
    requires
        updatable(*old(sandbox), x as int, y as int),
    ensures
        final(sandbox).cells@ == acid_outcome(old(sandbox).cells@, x as int, y as int),
        grid_changed(*old(sandbox), *final(sandbox)),
        old(sandbox).wf() ==> final(sandbox).wf(),
        final(sandbox).rng == old(sandbox).rng,
{
    let ghost g = sandbox.cells@;
    let mut k: usize = 0;
    while k < 4
        invariant
            k <= 4,
            sandbox.cells@ == g,
            g == old(sandbox).cells@,
            updatable(*sandbox, x as int, y as int),
            grid_changed(*old(sandbox), *sandbox),
            sandbox.rng == old(sandbox).rng,
            old(sandbox).wf() ==> sandbox.wf(),
            first_dissolvable(g, x as int, y as int, 0) == first_dissolvable(g, x as int, y as int, k as int),
        decreases 4 - k,
    {
        if let Some((nx, ny)) = side_cell(x, y, k) {
            if let Some(particle) = sandbox.get(nx, ny) {
                if particle.dissolved_by_acid() {
                    proof { assert(first_dissolvable(g, x as int, y as int, k as int) == k); }
                    if particle.ptype == ParticleType::Water {
                        apply_blast(sandbox, x, y, Blast::Warm);
                    }
                    sandbox.set(x, y, None);
                    sandbox.set(nx, ny, None);
                    return;
                }
            }
        }
        proof {
            assert(first_dissolvable(g, x as int, y as int, k as int)
                == first_dissolvable(g, x as int, y as int, k + 1));
        }
        k = k + 1;
    }
}

/// One tick of an Unstable particle's clock: `extra_data1` counts frames and
/// every 31st tick resets to 0 and raises the temperature by 10 (wrapping).
pub open spec fn unstable_tick(p: Particle) -> Particle {
    if p.extra_data1 == 30 {
        Particle { extra_data1: 0, temperature: p.temperature.wrapping_add(10), ..p }
    } else {
        with_extra1(p, p.extra_data1.wrapping_add(1))
    }
}

/// Whether offset `(dx, dy)` lies within 30 cells along both axes.
pub open spec fn in_explosion(dx: int, dy: int) -> bool {
    -30 <= dx <= 30 && -30 <= dy <= 30
}

/// What an explosion may leave in a cell that held `before`: a vaporizable
/// particle in range becomes a new Smoke particle, anything else stays.
pub open spec fn exploded_cell(before: Option<Particle>, after: Option<Particle>, in_range: bool) -> bool {
    if in_range && (before matches Some(p) && unstable_vaporizes(p.ptype)) {
        after matches Some(s) && fresh_particle(s, ParticleType::Smoke)
    } else {
        after == before
    }
}

/// `new` is `g` after an explosion centred on `(x, y)`.
pub open spec fn explosion_ok(g: Seq<Option<Particle>>, new: Seq<Option<Particle>>, x: int, y: int) -> bool {
    &&& new.len() == g.len()
    &&& forall|cx: int, cy: int| in_grid(cx, cy) ==>
        exploded_cell(at(g, cx, cy), #[trigger] at(new, cx, cy), in_explosion(cx - x, cy - y))
}

/// Unstable: the clock ticks (see `unstable_tick`); at 200 degrees or more
/// everything vaporizable within 30 cells, the particle itself included,
/// turns into Smoke.
pub open spec fn unstable_outcome_ok(g: Seq<Option<Particle>>, new: Seq<Option<Particle>>, x: int, y: int) -> bool {
    let q = unstable_tick(at(g, x, y).unwrap());
    let g1 = put(g, x, y, Some(q));
    if q.temperature >= 200 { explosion_ok(g1, new, x, y) } else { new == g1 }
}

/// Applies the Unstable rule to the particle at `(x, y)` (see
/// `unstable_outcome_ok`); each new Smoke particle draws from the generator.
pub fn update_unstable(sandbox: &mut Sandbox, x: usize, y: usize)
    requires
        updatable(*old(sandbox), x as int, y as int),
    ensures
        unstable_outcome_ok(old(sandbox).cells@, final(sandbox).cells@, x as int, y as int),
        grid_changed(*old(sandbox), *final(sandbox)),
        old(sandbox).wf() && kind_at(old(sandbox).cells@, x as int, y as int) != ParticleType::Electricity
            ==> final(sandbox).wf(),
{
    let p = sandbox.get(x, y).unwrap();
    let mut q = p;
    if q.extra_data1 == 30 {
        q.extra_data1 = 0;
        q.temperature = q.temperature.wrapping_add(10);
    } else {
        q.extra_data1 = q.extra_data1.wrapping_add(1);
    }
    sandbox.set(x, y, Some(q));
    if q.temperature >= 200 {
        let ghost g = sandbox.cells@;
        let ghost was_ok = old(sandbox).wf() && kind_at(old(sandbox).cells@, x as int, y as int) != ParticleType::Electricity;
        let mut dx: isize = -30;
        while dx <= 30
            invariant
                -30 <= dx <= 31,
                in_grid(x as int, y as int),
                sandbox.sized(),
                g.len() == n_cells(),
                grid_changed(*old(sandbox), *sandbox),
                was_ok ==> sandbox.wf(),
                forall|cx: int, cy: int| in_grid(cx, cy) ==> exploded_cell(at(g, cx, cy),
                    #[trigger] at(sandbox.cells@, cx, cy),
                    in_explosion(cx - x, cy - y) && walked_before(cx - x, cy - y, dx as int, -30)),
            decreases 31 - dx,
        {
            let mut dy: isize = -30;
            while dy <= 30
                invariant
                    -30 <= dx <= 30,
                    -30 <= dy <= 31,
                    in_grid(x as int, y as int),
                    sandbox.sized(),
                    g.len() == n_cells(),
                    grid_changed(*old(sandbox), *sandbox),
                    was_ok ==> sandbox.wf(),
                    forall|cx: int, cy: int| in_grid(cx, cy) ==> exploded_cell(at(g, cx, cy),
                        #[trigger] at(sandbox.cells@, cx, cy),
                        in_explosion(cx - x, cy - y) && walked_before(cx - x, cy - y, dx as int, dy as int)),
                decreases 31 - dy,
            {
                let ghost cur = sandbox.cells@;
                if let Some((cx, cy)) = neighbour(x, y, dx, dy) {
                    if let Some(particle) = sandbox.get(cx, cy) {
                        if particle.can_be_vaporized_by_unstable() {
                            let smoke = Particle::new(ParticleType::Smoke, &mut sandbox.rng);
                            sandbox.set(cx, cy, Some(smoke));
                        }
                    }
                }
                proof {
                    assert forall|cx: int, cy: int| in_grid(cx, cy) implies exploded_cell(at(g, cx, cy),
                        #[trigger] at(sandbox.cells@, cx, cy),
                        in_explosion(cx - x, cy - y) && walked_before(cx - x, cy - y, dx as int, dy + 1)) by {
                        if in_grid(x + dx, y + dy) {
                            lemma_cell_index(cx, cy, x + dx, y + dy);
                        }
                        assert(exploded_cell(at(g, cx, cy), at(cur, cx, cy),
                            in_explosion(cx - x, cy - y) && walked_before(cx - x, cy - y, dx as int, dy as int)));
                    }
                }
                dy = dy + 1;
            }
            proof {
                assert forall|cx: int, cy: int| in_grid(cx, cy) implies exploded_cell(at(g, cx, cy),
                    #[trigger] at(sandbox.cells@, cx, cy),
                    in_explosion(cx - x, cy - y) && walked_before(cx - x, cy - y, dx + 1, -30)) by {
                    assert(exploded_cell(at(g, cx, cy), at(sandbox.cells@, cx, cy),
                        in_explosion(cx - x, cy - y) && walked_before(cx - x, cy - y, dx as int, 31)));
                }
            }
            dx = dx + 1;
        }
        proof {
            assert forall|cx: int, cy: int| in_grid(cx, cy) implies exploded_cell(at(g, cx, cy),
                #[trigger] at(sandbox.cells@, cx, cy), in_explosion(cx - x, cy - y)) by {
                assert(exploded_cell(at(g, cx, cy), at(sandbox.cells@, cx, cy),
                    in_explosion(cx - x, cy - y) && walked_before(cx - x, cy - y, 31, -30)));
            }
        }
    }
}

/// The position of the `k`-th neighbour of `(x, y)`.
pub open spec fn side_pos(x: int, y: int, k: int) -> (int, int) {
    (x + side(k).0, y + side(k).1)
}

/// Whether `(cx, cy)` is `(x, y)` or one of its four neighbours.
pub open spec fn near(x: int, y: int, cx: int, cy: int) -> bool {
    ||| (cx, cy) == (x, y)
    ||| (cx, cy) == side_pos(x, y, 0)
    ||| (cx, cy) == side_pos(x, y, 1)
    ||| (cx, cy) == side_pos(x, y, 2)
    ||| (cx, cy) == side_pos(x, y, 3)
}

/// Every cell that is not `(x, y)` or one of its neighbours is the same in
/// `g` and `new`.
pub open spec fn same_away(g: Seq<Option<Particle>>, new: Seq<Option<Particle>>, x: int, y: int) -> bool {
    &&& new.len() == g.len()
    &&& forall|cx: int, cy: int| in_grid(cx, cy) && !near(x, y, cx, cy) ==> #[trigger] at(new, cx, cy) == at(g, cx, cy)
}

/// A neighbour that Glitch converts: any particle but Glitch and Replicator.
pub open spec fn glitch_target(c: Option<Particle>) -> bool {
    c matches Some(q) && q.ptype != ParticleType::Glitch && q.ptype != ParticleType::Replicator
}

/// Glitch: every neighbour it converts (see `glitch_target`) becomes a new
/// particle of a random kind, and if it converted any, the Glitch particle
/// disappears.
pub open spec fn glitch_ok(g: Seq<Option<Particle>>, new: Seq<Option<Particle>>, x: int, y: int) -> bool {
    &&& same_away(g, new, x, y)
    &&& forall|k: int| 0 <= k < 4 ==> (if glitch_target(#[trigger] side_particle(g, x, y, k)) {
            side_particle(new, x, y, k) matches Some(q) && fresh_particle(q, q.ptype)
        } else {
            side_particle(new, x, y, k) == side_particle(g, x, y, k)
        })
    &&& at(new, x, y) == (if exists|k: int| 0 <= k < 4 && glitch_target(#[trigger] side_particle(g, x, y, k)) {
            None
        } else {
            at(g, x, y)
        })
}

/// The four neighbours of a cell on the grid are on the grid or off it, and
/// distinct from the cell and from each other.
proof fn lemma_sides(x: int, y: int)
    requires
        in_grid(x, y),
    ensures
        forall|k: int, j: int| 0 <= k < 4 && 0 <= j < 4 && k != j ==> #[trigger] side_pos(x, y, k) != #[trigger] side_pos(x, y, j),
        forall|k: int| 0 <= k < 4 ==> #[trigger] side_pos(x, y, k) != (x, y),
{
}

/// Particles that may stand in a well-formed grid.
pub open spec fn drawn_ok(drawn: Seq<Particle>) -> bool {
    forall|k: int| 0 <= k < drawn.len() ==> #[trigger] cell_ok(Some(drawn[k]))
}

/// Glitch with the drawn particles given: every neighbour it converts (see
/// `glitch_target`) becomes `drawn[k]`, the others stay, and if it converted
/// any, the Glitch particle disappears.
pub open spec fn glitch_with_ok(g: Seq<Option<Particle>>, new: Seq<Option<Particle>>, x: int, y: int, drawn: Seq<Particle>) -> bool {
    &&& same_away(g, new, x, y)
    &&& forall|k: int| 0 <= k < 4 ==> (if glitch_target(#[trigger] side_particle(g, x, y, k)) {
            side_particle(new, x, y, k) == Some(drawn[k])
        } else {
            side_particle(new, x, y, k) == side_particle(g, x, y, k)
        })
    &&& at(new, x, y) == (if exists|k: int| 0 <= k < 4 && glitch_target(#[trigger] side_particle(g, x, y, k)) {
            None
        } else {
            at(g, x, y)
        })
}

/// Applies the Glitch rule to the particle at `(x, y)` with the particles
/// that the conversions drew given: the `k`-th neighbour, if converted,
/// becomes `drawn[k]` (see `glitch_with_ok`).
pub fn update_glitch_with(sandbox: &mut Sandbox, x: usize, y: usize, drawn: &[Particle; 4])
    requires
        updatable(*old(sandbox), x as int, y as int),
    ensures
        glitch_with_ok(old(sandbox).cells@, final(sandbox).cells@, x as int, y as int, drawn@),
        grid_changed(*old(sandbox), *final(sandbox)),
        old(sandbox).wf() && drawn_ok(drawn@) ==> final(sandbox).wf(),
        final(sandbox).rng == old(sandbox).rng,
{
    let ghost g = sandbox.cells@;
    proof { lemma_sides(x as int, y as int); }
    let mut k: usize = 0;
    while k < 4
        invariant
            k <= 4,
            g == old(sandbox).cells@,
            in_grid(x as int, y as int),
            sandbox.sized(),
            grid_changed(*old(sandbox), *sandbox),
            old(sandbox).wf() && drawn_ok(drawn@) ==> sandbox.wf(),
            sandbox.rng == old(sandbox).rng,
            same_away(g, sandbox.cells@, x as int, y as int),
            forall|j: int| k <= j < 4 ==> #[trigger] side_particle(sandbox.cells@, x as int, y as int, j)
                == side_particle(g, x as int, y as int, j),
            forall|j: int| 0 <= j < k ==> (if glitch_target(#[trigger] side_particle(g, x as int, y as int, j)) {
                side_particle(sandbox.cells@, x as int, y as int, j) == Some(drawn@[j])
            } else {
                side_particle(sandbox.cells@, x as int, y as int, j) == side_particle(g, x as int, y as int, j)
            }),
            at(sandbox.cells@, x as int, y as int) == (if exists|j: int| 0 <= j < k && glitch_target(#[trigger] side_particle(g, x as int, y as int, j)) {
                None
            } else {
                at(g, x as int, y as int)
            }),
        decreases 4 - k,
    {
        let ghost cur = sandbox.cells@;
        if let Some((nx, ny)) = side_cell(x, y, k) {
            if let Some(n) = sandbox.get(nx, ny) {
                if n.ptype != ParticleType::Glitch && n.ptype != ParticleType::Replicator {
                    sandbox.set(x, y, None);
                    let q = drawn[k];
                    proof { if drawn_ok(drawn@) { assert(cell_ok(Some(drawn@[k as int]))); } }
                    sandbox.set(nx, ny, Some(q));
                }
            }
        }
        proof {
            let new = sandbox.cells@;
            let kk = k as int;
            assert(side_particle(cur, x as int, y as int, kk) == side_particle(g, x as int, y as int, kk));
            assert forall|cx: int, cy: int| in_grid(cx, cy) && !near(x as int, y as int, cx, cy)
                implies #[trigger] at(new, cx, cy) == at(g, cx, cy) by {
                lemma_cell_index(cx, cy, x as int, y as int);
                let (sx, sy) = side_pos(x as int, y as int, kk);
                if in_grid(sx, sy) {
                    lemma_cell_index(cx, cy, sx, sy);
                }
                assert(at(cur, cx, cy) == at(g, cx, cy));
            }
            assert forall|j: int| kk + 1 <= j < 4 implies #[trigger] side_particle(new, x as int, y as int, j)
                == side_particle(g, x as int, y as int, j) by {
                let (sx, sy) = side_pos(x as int, y as int, kk);
                let (tx, ty) = side_pos(x as int, y as int, j);
                if in_grid(tx, ty) {
                    lemma_cell_index(tx, ty, x as int, y as int);
                    if in_grid(sx, sy) {
                        lemma_cell_index(tx, ty, sx, sy);
                    }
                }
                assert(side_particle(cur, x as int, y as int, j) == side_particle(g, x as int, y as int, j));
            }
            assert forall|j: int| 0 <= j < kk + 1 implies (if glitch_target(#[trigger] side_particle(g, x as int, y as int, j)) {
                side_particle(new, x as int, y as int, j) == Some(drawn@[j])
            } else {
                side_particle(new, x as int, y as int, j) == side_particle(g, x as int, y as int, j)
            }) by {
                let (sx, sy) = side_pos(x as int, y as int, kk);
                let (tx, ty) = side_pos(x as int, y as int, j);
                if in_grid(tx, ty) {
                    lemma_cell_index(tx, ty, x as int, y as int);
                    if in_grid(sx, sy) {
                        lemma_cell_index(tx, ty, sx, sy);
                    }
                }
                if j < kk {
                    assert(side_particle(cur, x as int, y as int, j) == side_particle(new, x as int, y as int, j));
                }
            }
            if exists|j: int| 0 <= j < kk + 1 && glitch_target(#[trigger] side_particle(g, x as int, y as int, j)) {
                let j = choose|j: int| 0 <= j < kk + 1 && glitch_target(#[trigger] side_particle(g, x as int, y as int, j));
                if j < kk {
                    assert(exists|i: int| 0 <= i < kk && glitch_target(#[trigger] side_particle(g, x as int, y as int, i)));
                }
            } else {
                assert(!glitch_target(side_particle(g, x as int, y as int, kk)));
            }
        }
        k = k + 1;
    }
}

/// Applies the Glitch rule to the particle at `(x, y)` (see `glitch_ok`):
/// for each neighbour it converts, in order, a kind is drawn and then the
/// new particle's state (see `update_glitch_with`).
pub fn update_glitch(sandbox: &mut Sandbox, x: usize, y: usize)
    requires
        updatable(*old(sandbox), x as int, y as int),
    ensures
        glitch_ok(old(sandbox).cells@, final(sandbox).cells@, x as int, y as int),
        grid_changed(*old(sandbox), *final(sandbox)),
        old(sandbox).wf() ==> final(sandbox).wf(),
{
    let ghost g = sandbox.cells@;
    let blank = Particle { ptype: ParticleType::Sand, temperature: 0, extra_data1: 0, extra_data2: 0, color_offset: 0, last_update: 0 };
    let mut drawn = [blank, blank, blank, blank];
    let mut k: usize = 0;
    while k < 4
        invariant
            k <= 4,
            in_grid(x as int, y as int),
            sandbox.sized(),
            sandbox.cells@ == g,
            grid_changed(*old(sandbox), *sandbox),
            g == old(sandbox).cells@,
            drawn_ok(drawn@),
            drawn@.len() == 4,
            forall|j: int| 0 <= j < k && glitch_target(#[trigger] side_particle(g, x as int, y as int, j))
                ==> fresh_particle(drawn@[j], drawn@[j].ptype),
        decreases 4 - k,
    {
        if let Some((nx, ny)) = side_cell(x, y, k) {
            if let Some(n) = sandbox.get(nx, ny) {
                if n.ptype != ParticleType::Glitch && n.ptype != ParticleType::Replicator {
                    let kind = ParticleType::random(&mut sandbox.rng);
                    let q = Particle::new(kind, &mut sandbox.rng);
                    drawn[k] = q;
                }
            }
        }
        k = k + 1;
    }
    update_glitch_with(sandbox, x, y, &drawn);
}

/// Whether a Fire particle burns out: it has not moved for more than a
/// second (`extra_data2 > 60`) or it is colder than 40 degrees.
pub open spec fn burnt_out(p: Particle) -> bool {
    p.extra_data2 > 60 || p.temperature < 40
}

/// A neighbour that Fire can spread to.
pub open spec fn fuel(c: Option<Particle>) -> bool {
    c matches Some(n) && flammable_kind(n.ptype)
}

/// Whether Fire spread to its `k`-th neighbour between `g` and `new`: the
/// neighbour was flammable and it changed.
pub open spec fn ignited(g: Seq<Option<Particle>>, new: Seq<Option<Particle>>, x: int, y: int, k: int) -> bool {
    fuel(side_particle(g, x, y, k)) && side_particle(new, x, y, k) != side_particle(g, x, y, k)
}

/// Fire: a burnt-out particle disappears; each flammable neighbour catches
/// fire (becomes a new Fire particle) with probability 7/20, and a particle
/// that spread its fire disappears.
pub open spec fn fire_update_ok(g: Seq<Option<Particle>>, new: Seq<Option<Particle>>, x: int, y: int) -> bool {
    &&& same_away(g, new, x, y)
    &&& forall|k: int| 0 <= k < 4 ==> (if fuel(#[trigger] side_particle(g, x, y, k)) {
            side_particle(new, x, y, k) == side_particle(g, x, y, k)
            || (side_particle(new, x, y, k) matches Some(f) && fresh_particle(f, ParticleType::Fire))
        } else {
            side_particle(new, x, y, k) == side_particle(g, x, y, k)
        })
    &&& at(new, x, y) == (if burnt_out(at(g, x, y).unwrap())
            || exists|k: int| 0 <= k < 4 && #[trigger] ignited(g, new, x, y, k) {
            None
        } else {
            at(g, x, y)
        })
}

/// Fire goes out and otherwise keeps burning: a Fire particle colder than
/// 40 degrees, or one that has not moved for more than a second
/// (`extra_data2 > 60`), leaves its cell empty after its update; one that
/// is at least 40 degrees, has moved within the second and has no flammable
/// particle (Plant, Cryotheum, Life or Glitch) next to it changes nothing.
pub proof fn lemma_fire_burns_out(p: Particle, g: Seq<Option<Particle>>, new: Seq<Option<Particle>>, x: int, y: int)
    requires
        g.len() == n_cells(),
        in_grid(x, y),
        at(g, x, y) == Some(p),
        p.ptype == ParticleType::Fire,
        fire_update_ok(g, new, x, y),
    ensures
        p.temperature < 40 || p.extra_data2 > 60 ==> at(new, x, y) is None,
        p.temperature >= 40 && p.extra_data2 <= 60
            && (forall|nx: int, ny: int| in_grid(nx, ny)
                && ((nx == x && (ny == y + 1 || ny == y - 1)) || (ny == y && (nx == x + 1 || nx == x - 1)))
                ==> !(#[trigger] at(g, nx, ny) matches Some(q) && (q.ptype == ParticleType::Plant
                    || q.ptype == ParticleType::Cryotheum || q.ptype == ParticleType::Life || q.ptype == ParticleType::Glitch)))
            ==> new == g,
{
    if p.temperature >= 40 && p.extra_data2 <= 60
        && (forall|nx: int, ny: int| in_grid(nx, ny)
            && ((nx == x && (ny == y + 1 || ny == y - 1)) || (ny == y && (nx == x + 1 || nx == x - 1)))
            ==> !(#[trigger] at(g, nx, ny) matches Some(q) && (q.ptype == ParticleType::Plant
                || q.ptype == ParticleType::Cryotheum || q.ptype == ParticleType::Life || q.ptype == ParticleType::Glitch))) {
        assert forall|k: int| 0 <= k < 4 implies !fuel(#[trigger] side_particle(g, x, y, k)) by {
            let (nx, ny) = side_pos(x, y, k);
            if in_grid(nx, ny) {
                assert(!(at(g, nx, ny) matches Some(q) && (q.ptype == ParticleType::Plant
                    || q.ptype == ParticleType::Cryotheum || q.ptype == ParticleType::Life || q.ptype == ParticleType::Glitch)));
            }
        }
        assert(!exists|k: int| 0 <= k < 4 && #[trigger] ignited(g, new, x, y, k));
        assert forall|cx: int, cy: int| in_grid(cx, cy) implies #[trigger] at(new, cx, cy) == at(g, cx, cy) by {
            if near(x, y, cx, cy) && (cx, cy) != (x, y) {
                if (cx, cy) == side_pos(x, y, 0) {
                    assert(side_particle(new, x, y, 0) == side_particle(g, x, y, 0));
                } else if (cx, cy) == side_pos(x, y, 1) {
                    assert(side_particle(new, x, y, 1) == side_particle(g, x, y, 1));
                } else if (cx, cy) == side_pos(x, y, 2) {
                    assert(side_particle(new, x, y, 2) == side_particle(g, x, y, 2));
                } else {
                    assert(side_particle(new, x, y, 3) == side_particle(g, x, y, 3));
                }
            }
        }
        lemma_grid_ext(new, g);
    }
}

/// Applies the Fire rule to the particle at `(x, y)` (see `fire_update_ok`).
pub fn update_fire(sandbox: &mut Sandbox, x: usize, y: usize)
    requires
        updatable(*old(sandbox), x as int, y as int),
    ensures
        fire_update_ok(old(sandbox).cells@, final(sandbox).cells@, x as int, y as int),
        grid_changed(*old(sandbox), *final(sandbox)),
        old(sandbox).wf() ==> final(sandbox).wf(),
{
    let ghost g = sandbox.cells@;
    proof { lemma_sides(x as int, y as int); }
    let p = sandbox.get(x, y).unwrap();
    if p.extra_data2 > 60 || p.temperature < 40 {
        sandbox.set(x, y, None);
    }
    proof {
        assert forall|cx: int, cy: int| in_grid(cx, cy) && !near(x as int, y as int, cx, cy)
            implies #[trigger] at(sandbox.cells@, cx, cy) == at(g, cx, cy) by {
            lemma_cell_index(cx, cy, x as int, y as int);
        }
        assert forall|j: int| 0 <= j < 4 implies #[trigger] side_particle(sandbox.cells@, x as int, y as int, j)
            == side_particle(g, x as int, y as int, j) by {
            let (tx, ty) = side_pos(x as int, y as int, j);
            if in_grid(tx, ty) {
                lemma_cell_index(tx, ty, x as int, y as int);
            }
        }
    }
    let mut k: usize = 0;
    while k < 4
        invariant
            k <= 4,
            g == old(sandbox).cells@,
            p == at(g, x as int, y as int).unwrap(),
            in_grid(x as int, y as int),
            sandbox.sized(),
            grid_changed(*old(sandbox), *sandbox),
            old(sandbox).wf() ==> sandbox.wf(),
            same_away(g, sandbox.cells@, x as int, y as int),
            forall|j: int| k <= j < 4 ==> #[trigger] side_particle(sandbox.cells@, x as int, y as int, j)
                == side_particle(g, x as int, y as int, j),
            forall|j: int| 0 <= j < k ==> (if fuel(#[trigger] side_particle(g, x as int, y as int, j)) {
                side_particle(sandbox.cells@, x as int, y as int, j) == side_particle(g, x as int, y as int, j)
                || (side_particle(sandbox.cells@, x as int, y as int, j) matches Some(f) && fresh_particle(f, ParticleType::Fire))
            } else {
                side_particle(sandbox.cells@, x as int, y as int, j) == side_particle(g, x as int, y as int, j)
            }),
            at(sandbox.cells@, x as int, y as int) == (if burnt_out(p)
                || exists|j: int| 0 <= j < k && #[trigger] ignited(g, sandbox.cells@, x as int, y as int, j) {
                None
            } else {
                at(g, x as int, y as int)
            }),
        decreases 4 - k,
    {
        let ghost cur = sandbox.cells@;
        if let Some((nx, ny)) = side_cell(x, y, k) {
            if let Some(n) = sandbox.get(nx, ny) {
                if n.is_flammable() && gen_ratio(&mut sandbox.rng, 7, 20) {
                    sandbox.set(x, y, None);
                    let f = Particle::new(ParticleType::Fire, &mut sandbox.rng);
                    proof { assert(cell_ok(Some(f))); }
                    sandbox.set(nx, ny, Some(f));
                }
            }
        }
        proof {
            let new = sandbox.cells@;
            let kk = k as int;
            assert(side_particle(cur, x as int, y as int, kk) == side_particle(g, x as int, y as int, kk));
            assert forall|cx: int, cy: int| in_grid(cx, cy) && !near(x as int, y as int, cx, cy)
                implies #[trigger] at(new, cx, cy) == at(g, cx, cy) by {
                lemma_cell_index(cx, cy, x as int, y as int);
                let (sx, sy) = side_pos(x as int, y as int, kk);
                if in_grid(sx, sy) {
                    lemma_cell_index(cx, cy, sx, sy);
                }
                assert(at(cur, cx, cy) == at(g, cx, cy));
            }
            assert forall|j: int| 0 <= j < 4 && j != kk implies #[trigger] side_particle(new, x as int, y as int, j)
                == side_particle(cur, x as int, y as int, j) by {
                let (sx, sy) = side_pos(x as int, y as int, kk);
                let (tx, ty) = side_pos(x as int, y as int, j);
                if in_grid(tx, ty) {
                    lemma_cell_index(tx, ty, x as int, y as int);
                    if in_grid(sx, sy) {
                        lemma_cell_index(tx, ty, sx, sy);
                    }
                }
            }
            assert forall|j: int| kk + 1 <= j < 4 implies #[trigger] side_particle(new, x as int, y as int, j)
                == side_particle(g, x as int, y as int, j) by {
                assert(side_particle(new, x as int, y as int, j) == side_particle(cur, x as int, y as int, j));
            }
            assert forall|j: int| 0 <= j < kk + 1 implies (if fuel(#[trigger] side_particle(g, x as int, y as int, j)) {
                side_particle(new, x as int, y as int, j) == side_particle(g, x as int, y as int, j)
                || (side_particle(new, x as int, y as int, j) matches Some(f) && fresh_particle(f, ParticleType::Fire))
            } else {
                side_particle(new, x as int, y as int, j) == side_particle(g, x as int, y as int, j)
            }) by {
                if j < kk {
                    assert(side_particle(new, x as int, y as int, j) == side_particle(cur, x as int, y as int, j));
                }
            }
            assert forall|j: int| 0 <= j < kk implies
                #[trigger] ignited(g, new, x as int, y as int, j) == ignited(g, cur, x as int, y as int, j) by {
                assert(side_particle(new, x as int, y as int, j) == side_particle(cur, x as int, y as int, j));
            }
            if exists|j: int| 0 <= j < kk + 1 && #[trigger] ignited(g, new, x as int, y as int, j) {
                let j = choose|j: int| 0 <= j < kk + 1 && #[trigger] ignited(g, new, x as int, y as int, j);
                if j < kk {
                    assert(ignited(g, cur, x as int, y as int, j));
                }
            } else {
                assert(!ignited(g, new, x as int, y as int, kk));
                if exists|j: int| 0 <= j < kk && #[trigger] ignited(g, cur, x as int, y as int, j) {
                    let j = choose|j: int| 0 <= j < kk && #[trigger] ignited(g, cur, x as int, y as int, j);
                    assert(ignited(g, new, x as int, y as int, j));
                }
            }
        }
        k = k + 1;
    }
}

/// The cell two steps away in the direction of the `k`-th neighbour.
pub open spec fn far_pos(x: int, y: int, k: int) -> (int, int) {
    (x + 2 * side(k).0, y + 2 * side(k).1)
}

/// Whether a Replicator at `(x, y)` copies its `k`-th neighbour: the cell
/// beyond it is on the grid and the neighbour is a particle other than a
/// Replicator.
pub open spec fn replicable(g: Seq<Option<Particle>>, x: int, y: int, k: int) -> bool {
    in_grid(far_pos(x, y, k).0, far_pos(x, y, k).1)
        && (side_particle(g, x, y, k) matches Some(n) && n.ptype != ParticleType::Replicator)
}

/// `c` is a copy of `n` with a new colour offset in -10..=10.
pub open spec fn replica_of(n: Particle, c: Particle) -> bool {
    c == Particle { color_offset: c.color_offset, ..n } && -10 <= c.color_offset <= 10
}

/// Replicator: it copies each neighbour it can (see `replicable`) into the
/// cell beyond that neighbour when that cell is empty, and records in
/// `extra_data1` whether it had anything to copy (1) or not (0).
pub open spec fn replicator_ok(g: Seq<Option<Particle>>, new: Seq<Option<Particle>>, x: int, y: int) -> bool {
    &&& new.len() == g.len()
    &&& forall|cx: int, cy: int| in_grid(cx, cy) && (cx, cy) != (x, y)
            && (cx, cy) != far_pos(x, y, 0) && (cx, cy) != far_pos(x, y, 1)
            && (cx, cy) != far_pos(x, y, 2) && (cx, cy) != far_pos(x, y, 3)
            ==> #[trigger] at(new, cx, cy) == at(g, cx, cy)
    &&& at(new, x, y) == Some(with_extra1(at(g, x, y).unwrap(),
            if exists|k: int| 0 <= k < 4 && #[trigger] replicable(g, x, y, k) { 1i8 } else { 0i8 }))
    &&& forall|k: int| 0 <= k < 4 ==> #[trigger] far_done(g, new, x, y, k)
}

/// The cell beyond the `k`-th neighbour of a Replicator: a copy of the
/// neighbour when it was replicable and the cell was empty, else unchanged.
pub open spec fn far_done(g: Seq<Option<Particle>>, new: Seq<Option<Particle>>, x: int, y: int, k: int) -> bool {
    let (fx, fy) = far_pos(x, y, k);
    in_grid(fx, fy) ==> (if replicable(g, x, y, k) && at(g, fx, fy) is None {
        at(new, fx, fy) matches Some(c) && replica_of(side_particle(g, x, y, k).unwrap(), c)
    } else {
        at(new, fx, fy) == at(g, fx, fy)
    })
}

/// `far_done` with the drawn colour offset `offset` given: the copy is the
/// neighbour with that colour offset.
pub open spec fn far_done_with(g: Seq<Option<Particle>>, new: Seq<Option<Particle>>, x: int, y: int, k: int, offset: i8) -> bool {
    let (fx, fy) = far_pos(x, y, k);
    in_grid(fx, fy) ==> (if replicable(g, x, y, k) && at(g, fx, fy) is None {
        at(new, fx, fy) == Some(Particle { color_offset: offset, ..side_particle(g, x, y, k).unwrap() })
    } else {
        at(new, fx, fy) == at(g, fx, fy)
    })
}

/// Replicator with the drawn colour offsets given: as `replicator_ok`, the
/// copy toward the `k`-th neighbour taking the colour offset `offsets[k]`.
pub open spec fn replicator_with_ok(g: Seq<Option<Particle>>, new: Seq<Option<Particle>>, x: int, y: int, offsets: Seq<i8>) -> bool {
    &&& new.len() == g.len()
    &&& forall|cx: int, cy: int| in_grid(cx, cy) && (cx, cy) != (x, y)
            && (cx, cy) != far_pos(x, y, 0) && (cx, cy) != far_pos(x, y, 1)
            && (cx, cy) != far_pos(x, y, 2) && (cx, cy) != far_pos(x, y, 3)
            ==> #[trigger] at(new, cx, cy) == at(g, cx, cy)
    &&& at(new, x, y) == Some(with_extra1(at(g, x, y).unwrap(),
            if exists|k: int| 0 <= k < 4 && #[trigger] replicable(g, x, y, k) { 1i8 } else { 0i8 }))
    &&& forall|k: int| 0 <= k < 4 ==> #[trigger] far_done_with(g, new, x, y, k, offsets[k])
}

/// The cell two steps from `(x, y)` in direction `k`, if it is on the grid.
fn far_cell(x: usize, y: usize, k: usize) -> (r: Option<(usize, usize)>)
    requires
        in_grid(x as int, y as int),
        k < 4,
    ensures
        r matches Some(c) ==> c.0 == far_pos(x as int, y as int, k as int).0
            && c.1 == far_pos(x as int, y as int, k as int).1 && in_grid(c.0 as int, c.1 as int),
        r is None ==> !in_grid(far_pos(x as int, y as int, k as int).0, far_pos(x as int, y as int, k as int).1),
{
    let (dx, dy): (isize, isize) = if k == 0 { (0, 2) } else if k == 1 { (2, 0) } else if k == 2 { (0, -2) } else { (-2, 0) };
    neighbour(x, y, dx, dy)
}

/// The cells a Replicator at `(x, y)` looks at or writes are distinct.
proof fn lemma_far(x: int, y: int)
    requires
        in_grid(x, y),
    ensures
        forall|k: int, j: int| 0 <= k < 4 && 0 <= j < 4 && k != j ==> #[trigger] far_pos(x, y, k) != #[trigger] far_pos(x, y, j),
        forall|k: int, j: int| 0 <= k < 4 && 0 <= j < 4 ==> #[trigger] far_pos(x, y, k) != #[trigger] side_pos(x, y, j),
        forall|k: int| 0 <= k < 4 ==> #[trigger] far_pos(x, y, k) != (x, y),
{
}

/// One direction of the Replicator rule: when the `k`-th neighbour is
/// replicable, mark the Replicator as busy and copy the neighbour, with the
/// colour offset `offset`, beyond itself if that cell is empty.
fn replicate_toward(sandbox: &mut Sandbox, x: usize, y: usize, k: usize, offset: i8) -> (busy: bool)
    requires
        updatable(*old(sandbox), x as int, y as int),
        k < 4,
    ensures
        busy == replicable(old(sandbox).cells@, x as int, y as int, k as int),
        updatable(*final(sandbox), x as int, y as int),
        grid_changed(*old(sandbox), *final(sandbox)),
        old(sandbox).wf() ==> final(sandbox).wf(),
        at(final(sandbox).cells@, x as int, y as int) == (if busy {
            Some(with_extra1(at(old(sandbox).cells@, x as int, y as int).unwrap(), 1i8))
        } else {
            at(old(sandbox).cells@, x as int, y as int)
        }),
        forall|cx: int, cy: int| in_grid(cx, cy) && (cx, cy) != (x as int, y as int)
            && (cx, cy) != far_pos(x as int, y as int, k as int)
            ==> #[trigger] at(final(sandbox).cells@, cx, cy) == at(old(sandbox).cells@, cx, cy),
        far_done_with(old(sandbox).cells@, final(sandbox).cells@, x as int, y as int, k as int, offset),
        final(sandbox).rng == old(sandbox).rng,
{
    let ghost cur = sandbox.cells@;
    proof { lemma_sides(x as int, y as int); lemma_far(x as int, y as int); }
    if let Some((fx, fy)) = far_cell(x, y, k) {
        let (nx, ny) = side_cell(x, y, k).unwrap();
        if let Some(n) = sandbox.get(nx, ny) {
            if n.ptype != ParticleType::Replicator {
                let mut me = sandbox.get(x, y).unwrap();
                proof {
                    if old(sandbox).wf() {
                        lemma_coords(x as int, y as int);
                        assert(cell_ok(cur[x * SANDBOX_HEIGHT + y]));
                    }
                }
                me.extra_data1 = 1;
                sandbox.set(x, y, Some(me));
                proof {
                    lemma_cell_index(fx as int, fy as int, x as int, y as int);
                    lemma_cell_index(nx as int, ny as int, x as int, y as int);
                }
                if sandbox.get(fx, fy).is_none() {
                    let mut c = n;
                    c.color_offset = offset;
                    proof {
                        if old(sandbox).wf() {
                            lemma_coords(nx as int, ny as int);
                            assert(cell_ok(cur[nx * SANDBOX_HEIGHT + ny]));
                        }
                    }
                    sandbox.set(fx, fy, Some(c));
                }
                proof {
                    assert forall|cx: int, cy: int| in_grid(cx, cy) && (cx, cy) != (x as int, y as int)
                        && (cx, cy) != far_pos(x as int, y as int, k as int)
                        implies #[trigger] at(sandbox.cells@, cx, cy) == at(cur, cx, cy) by {
                        lemma_cell_index(cx, cy, x as int, y as int);
                        lemma_cell_index(cx, cy, fx as int, fy as int);
                    }
                }
                return true;
            }
        }
    }
    false
}

/// Applies the Replicator rule to the particle at `(x, y)` with the colour
/// offsets of the copies given (see `replicator_with_ok`).
#[verifier::rlimit(40)]
pub fn update_replicator_with(sandbox: &mut Sandbox, x: usize, y: usize, offsets: &[i8; 4])
    requires
        updatable(*old(sandbox), x as int, y as int),
    ensures
        replicator_with_ok(old(sandbox).cells@, final(sandbox).cells@, x as int, y as int, offsets@),
        grid_changed(*old(sandbox), *final(sandbox)),
        old(sandbox).wf() ==> final(sandbox).wf(),
        final(sandbox).rng == old(sandbox).rng,
{
    let ghost g = sandbox.cells@;
    proof { lemma_sides(x as int, y as int); lemma_far(x as int, y as int); }
    let p = sandbox.get(x, y).unwrap();
    proof { if old(sandbox).wf() { assert(cell_ok(g[x * SANDBOX_HEIGHT + y])); } }
    let mut me = p;
    me.extra_data1 = 0;
    sandbox.set(x, y, Some(me));
    proof {
        assert forall|cx: int, cy: int| in_grid(cx, cy) && (cx, cy) != (x as int, y as int)
            implies #[trigger] at(sandbox.cells@, cx, cy) == at(g, cx, cy) by {
            lemma_cell_index(cx, cy, x as int, y as int);
        }
    }
    let mut any: bool = false;
    let mut k: usize = 0;
    while k < 4
        invariant
            k <= 4,
            g == old(sandbox).cells@,
            at(g, x as int, y as int) == Some(p),
            updatable(*sandbox, x as int, y as int),
            grid_changed(*old(sandbox), *sandbox),
            old(sandbox).wf() ==> sandbox.wf(),
            sandbox.rng == old(sandbox).rng,
            sandbox.cells@.len() == g.len(),
            forall|k: int, j: int| 0 <= k < 4 && 0 <= j < 4 && k != j ==> #[trigger] far_pos(x as int, y as int, k) != #[trigger] far_pos(x as int, y as int, j),
            forall|k: int, j: int| 0 <= k < 4 && 0 <= j < 4 ==> #[trigger] far_pos(x as int, y as int, k) != #[trigger] side_pos(x as int, y as int, j),
            forall|cx: int, cy: int| in_grid(cx, cy) && (cx, cy) != (x as int, y as int)
                && (forall|j: int| 0 <= j < k ==> (cx, cy) != #[trigger] far_pos(x as int, y as int, j))
                ==> #[trigger] at(sandbox.cells@, cx, cy) == at(g, cx, cy),
            any == exists|j: int| 0 <= j < k && #[trigger] replicable(g, x as int, y as int, j),
            at(sandbox.cells@, x as int, y as int) == Some(with_extra1(p, if any { 1i8 } else { 0i8 })),
            forall|j: int| 0 <= j < k ==> #[trigger] far_done_with(g, sandbox.cells@, x as int, y as int, j, offsets@[j]),
        decreases 4 - k,
    {
        let ghost cur = sandbox.cells@;
        let ghost kk = k as int;
        proof {
            let (nx, ny) = side_pos(x as int, y as int, kk);
            if in_grid(nx, ny) {
                lemma_cell_index(nx, ny, x as int, y as int);
                assert forall|j: int| 0 <= j < kk implies (nx, ny) != #[trigger] far_pos(x as int, y as int, j) by {}
                assert(at(cur, nx, ny) == at(g, nx, ny));
            }
            assert(side_particle(cur, x as int, y as int, kk) == side_particle(g, x as int, y as int, kk));
            let (fx, fy) = far_pos(x as int, y as int, kk);
            if in_grid(fx, fy) {
                lemma_cell_index(fx, fy, x as int, y as int);
                assert forall|j: int| 0 <= j < kk implies (fx, fy) != #[trigger] far_pos(x as int, y as int, j) by {}
                assert(at(cur, fx, fy) == at(g, fx, fy));
            }
        }
        proof {
            assert(replicable(cur, x as int, y as int, kk) == replicable(g, x as int, y as int, kk));
        }
        let busy = replicate_toward(sandbox, x, y, k, offsets[k]);
        if busy {
            any = true;
        }
        proof {
            let new = sandbox.cells@;
            if exists|j: int| 0 <= j < kk + 1 && #[trigger] replicable(g, x as int, y as int, j) {
                let j = choose|j: int| 0 <= j < kk + 1 && #[trigger] replicable(g, x as int, y as int, j);
                if j < kk {
                    assert(exists|i: int| 0 <= i < kk && #[trigger] replicable(g, x as int, y as int, i));
                }
            } else {
                assert(!replicable(g, x as int, y as int, kk));
            }
            let (fx, fy) = far_pos(x as int, y as int, kk);
            assert forall|cx: int, cy: int| in_grid(cx, cy) && (cx, cy) != (x as int, y as int)
                && (forall|j: int| 0 <= j < kk + 1 ==> (cx, cy) != #[trigger] far_pos(x as int, y as int, j))
                implies #[trigger] at(new, cx, cy) == at(g, cx, cy) by {
                assert((cx, cy) != far_pos(x as int, y as int, kk));
                assert(forall|j: int| 0 <= j < kk ==> (cx, cy) != #[trigger] far_pos(x as int, y as int, j));
                assert(at(cur, cx, cy) == at(g, cx, cy));
            }
            assert forall|j: int| 0 <= j < kk + 1 implies #[trigger] far_done_with(g, new, x as int, y as int, j, offsets@[j]) by {
                let (tx, ty) = far_pos(x as int, y as int, j);
                if j < kk {
                    assert(far_done_with(g, cur, x as int, y as int, j, offsets@[j]));
                    if in_grid(tx, ty) {
                        assert(far_pos(x as int, y as int, j) != far_pos(x as int, y as int, kk));
                        assert(at(new, tx, ty) == at(cur, tx, ty));
                    }
                } else {
                    assert(far_done_with(cur, new, x as int, y as int, kk, offsets@[kk]));
                    if in_grid(fx, fy) {
                        assert(at(cur, fx, fy) == at(g, fx, fy));
                    }
                }
            }
        }
        k = k + 1;
    }
    proof {
        assert forall|cx: int, cy: int| in_grid(cx, cy) && (cx, cy) != (x as int, y as int)
            && (cx, cy) != far_pos(x as int, y as int, 0) && (cx, cy) != far_pos(x as int, y as int, 1)
            && (cx, cy) != far_pos(x as int, y as int, 2) && (cx, cy) != far_pos(x as int, y as int, 3)
            implies #[trigger] at(sandbox.cells@, cx, cy) == at(g, cx, cy) by {
            assert(forall|j: int| 0 <= j < 4 ==> (cx, cy) != #[trigger] far_pos(x as int, y as int, j));
        }
    }
}

/// Applies the Replicator rule to the particle at `(x, y)` (see
/// `replicator_ok`): for each copy it makes, in order,
/// a colour offset is drawn from -10..=10 (see `update_replicator_with`).
pub fn update_replicator(sandbox: &mut Sandbox, x: usize, y: usize)
    requires
        updatable(*old(sandbox), x as int, y as int),
    ensures
        replicator_ok(old(sandbox).cells@, final(sandbox).cells@, x as int, y as int),
        grid_changed(*old(sandbox), *final(sandbox)),
        old(sandbox).wf() ==> final(sandbox).wf(),
{
    let ghost g = sandbox.cells@;
    let mut offsets: [i8; 4] = [0, 0, 0, 0];
    let mut k: usize = 0;
    while k < 4
        invariant
            k <= 4,
            updatable(*sandbox, x as int, y as int),
            sandbox.cells@ == g,
            g == old(sandbox).cells@,
            grid_changed(*old(sandbox), *sandbox),
            offsets@.len() == 4,
            forall|j: int| 0 <= j < 4 ==> -10 <= #[trigger] offsets@[j] <= 10,
        decreases 4 - k,
    {
        if let Some((fx, fy)) = far_cell(x, y, k) {
            let (nx, ny) = side_cell(x, y, k).unwrap();
            if let Some(n) = sandbox.get(nx, ny) {
                if n.ptype != ParticleType::Replicator && sandbox.get(fx, fy).is_none() {
                    offsets[k] = gen_range_i8(&mut sandbox.rng, -10, 11);
                }
            }
        }
        k = k + 1;
    }
    update_replicator_with(sandbox, x, y, &offsets);
    proof {
        assert forall|j: int| 0 <= j < 4 implies #[trigger] far_done(g, sandbox.cells@, x as int, y as int, j) by {
            assert(far_done_with(g, sandbox.cells@, x as int, y as int, j, offsets@[j]));
        }
    }
}

/// The first row, from `from` down, of the dry Sand that Water above soaks
/// into: the scan passes over wet Sand and stops (returning
/// `SANDBOX_HEIGHT`) at anything that is not Sand.
pub open spec fn dry_sand_row(g: Seq<Option<Particle>>, x: int, from: int) -> int
    decreases SANDBOX_HEIGHT - from,
{
    if from < 0 || from >= SANDBOX_HEIGHT {
        SANDBOX_HEIGHT as int
    } else {
        match at(g, x, from) {
            Some(p) => if p.ptype != ParticleType::Sand {
                SANDBOX_HEIGHT as int
            } else if p.extra_data1 == 0 {
                from
            } else {
                dry_sand_row(g, x, from + 1)
            },
            None => SANDBOX_HEIGHT as int,
        }
    }
}

/// The evaporation threshold of Water at `t` degrees (at least 100): the
/// chance `c = (1 - u) * 0.3 + u * 0.7`, with `u = t / 150` clamped to 1,
/// computed in double precision and scaled to `c * 2^64` (an integer at
/// this magnitude). Water evaporates when a uniformly drawn `u64` falls
/// below it, so the chance rises from 0.3 at 0 degrees to 0.7 at 150 and
/// above. The table holds the values of that double-precision computation.
pub open spec fn evaporation_threshold(t: i16) -> u64 {
    match t {
        100 => 0x9111111111111000,
        101 => 0x91bfd44f30782800,
        102 => 0x926e978d4fdf3800,
        103 => 0x931d5acb6f465000,
        104 => 0x93cc1e098ead6800,
        105 => 0x947ae147ae147800,
        106 => 0x9529a485cd7b9000,
        107 => 0x95d867c3ece2a800,
        108 => 0x96872b020c49b800,
        109 => 0x9735ee402bb0c800,
        110 => 0x97e4b17e4b17e000,
        111 => 0x989374bc6a7ef800,
        112 => 0x994237fa89e60800,
        113 => 0x99f0fb38a94d2000,
        114 => 0x9a9fbe76c8b43000,
        115 => 0x9b4e81b4e81b4800,
        116 => 0x9bfd44f307826000,
        117 => 0x9cac083126e97000,
        118 => 0x9d5acb6f46509000,
        119 => 0x9e098ead65b7a000,
        120 => 0x9eb851eb851eb000,
        121 => 0x9f671529a485d000,
        122 => 0xa015d867c3ece000,
        123 => 0xa0c49ba5e353f800,
        124 => 0xa1735ee402bb1000,
        125 => 0xa222222222222000,
        126 => 0xa2d0e56041893800,
        127 => 0xa37fa89e60f05000,
        128 => 0xa42e6bdc80576000,
        129 => 0xa4dd2f1a9fbe7800,
        130 => 0xa58bf258bf259000,
        131 => 0xa63ab596de8ca000,
        132 => 0xa6e978d4fdf3b800,
        133 => 0xa7983c131d5ad000,
        134 => 0xa846ff513cc1e000,
        135 => 0xa8f5c28f5c28f800,
        136 => 0xa9a485cd7b900800,
        137 => 0xaa53490b9af72000,
        138 => 0xab020c49ba5e3800,
        139 => 0xabb0cf87d9c54800,
        140 => 0xac5f92c5f92c6000,
        141 => 0xad0e560418937000,
        142 => 0xadbd194237fa8800,
        143 => 0xae6bdc805761a000,
        144 => 0xaf1a9fbe76c8b000,
        145 => 0xafc962fc962fc800,
        146 => 0xb078263ab596e000,
        147 => 0xb126e978d4fdf000,
        148 => 0xb1d5acb6f4650800,
        149 => 0xb2846ff513cc1800,
        _ => 0xb333333333333000,
    }
}

/// The evaporation threshold at `t` degrees (see `evaporation_threshold`).
fn evaporation_threshold_at(t: i16) -> (r: u64)
    ensures
        r == evaporation_threshold(t),
{
    match t {
        100 => 0x9111111111111000,
        101 => 0x91bfd44f30782800,
        102 => 0x926e978d4fdf3800,
        103 => 0x931d5acb6f465000,
        104 => 0x93cc1e098ead6800,
        105 => 0x947ae147ae147800,
        106 => 0x9529a485cd7b9000,
        107 => 0x95d867c3ece2a800,
        108 => 0x96872b020c49b800,
        109 => 0x9735ee402bb0c800,
        110 => 0x97e4b17e4b17e000,
        111 => 0x989374bc6a7ef800,
        112 => 0x994237fa89e60800,
        113 => 0x99f0fb38a94d2000,
        114 => 0x9a9fbe76c8b43000,
        115 => 0x9b4e81b4e81b4800,
        116 => 0x9bfd44f307826000,
        117 => 0x9cac083126e97000,
        118 => 0x9d5acb6f46509000,
        119 => 0x9e098ead65b7a000,
        120 => 0x9eb851eb851eb000,
        121 => 0x9f671529a485d000,
        122 => 0xa015d867c3ece000,
        123 => 0xa0c49ba5e353f800,
        124 => 0xa1735ee402bb1000,
        125 => 0xa222222222222000,
        126 => 0xa2d0e56041893800,
        127 => 0xa37fa89e60f05000,
        128 => 0xa42e6bdc80576000,
        129 => 0xa4dd2f1a9fbe7800,
        130 => 0xa58bf258bf259000,
        131 => 0xa63ab596de8ca000,
        132 => 0xa6e978d4fdf3b800,
        133 => 0xa7983c131d5ad000,
        134 => 0xa846ff513cc1e000,
        135 => 0xa8f5c28f5c28f800,
        136 => 0xa9a485cd7b900800,
        137 => 0xaa53490b9af72000,
        138 => 0xab020c49ba5e3800,
        139 => 0xabb0cf87d9c54800,
        140 => 0xac5f92c5f92c6000,
        141 => 0xad0e560418937000,
        142 => 0xadbd194237fa8800,
        143 => 0xae6bdc805761a000,
        144 => 0xaf1a9fbe76c8b000,
        145 => 0xafc962fc962fc800,
        146 => 0xb078263ab596e000,
        147 => 0xb126e978d4fdf000,
        148 => 0xb1d5acb6f4650800,
        149 => 0xb2846ff513cc1800,
        _ => 0xb333333333333000,
    }
}

/// Whether Water at `t` degrees evaporates when the `u64` drawn for it is
/// `v`: at 100 degrees or more, when `v` lies below the threshold.
pub open spec fn evaporates(t: i16, v: u64) -> bool {
    t >= 100 && v < evaporation_threshold(t)
}

/// Water: at 100 degrees or more it may turn into Steam (`evaporate`, drawn
/// against `evaporation_threshold`); otherwise it soaks into the first dry Sand
/// below it (see `dry_sand_row`): the water disappears and the sand becomes
/// wet (`extra_data1 = 1`).
pub open spec fn water_outcome(g: Seq<Option<Particle>>, x: int, y: int, evaporate: bool) -> Seq<Option<Particle>> {
    let p = at(g, x, y).unwrap();
    if p.temperature >= 100 && evaporate {
        put(g, x, y, Some(Particle { ptype: ParticleType::Steam, ..p }))
    } else {
        let r = dry_sand_row(g, x, y + 1);
        if r < SANDBOX_HEIGHT {
            put(put(g, x, y, None), x, r, Some(with_extra1(at(g, x, r).unwrap(), 1i8)))
        } else {
            g
        }
    }
}

/// Applies the Water rule to the particle at `(x, y)` (see `water_outcome`)
/// with the evaporation coin given.
pub fn update_water_with(sandbox: &mut Sandbox, x: usize, y: usize, evaporate: bool)
    requires
        updatable(*old(sandbox), x as int, y as int),
    ensures
        final(sandbox).cells@ == water_outcome(old(sandbox).cells@, x as int, y as int, evaporate),
        grid_changed(*old(sandbox), *final(sandbox)),
        old(sandbox).wf() ==> final(sandbox).wf(),
        final(sandbox).rng == old(sandbox).rng,
{
    let ghost g = sandbox.cells@;
    let p = sandbox.get(x, y).unwrap();
    if p.temperature >= 100 && evaporate {
        let mut q = p;
        q.ptype = ParticleType::Steam;
        sandbox.set(x, y, Some(q));
        return;
    }
    let mut y2 = y + 1;
    while y2 < SANDBOX_HEIGHT
        invariant
            y < y2 <= SANDBOX_HEIGHT,
            g == old(sandbox).cells@,
            sandbox.cells@ == g,
            updatable(*sandbox, x as int, y as int),
            grid_changed(*old(sandbox), *sandbox),
            sandbox.rng == old(sandbox).rng,
            dry_sand_row(g, x as int, y + 1) == dry_sand_row(g, x as int, y2 as int),
            !(at(g, x as int, y as int).unwrap().temperature >= 100 && evaporate),
        decreases SANDBOX_HEIGHT - y2,
    {
        match sandbox.get(x, y2) {
            Some(s) => {
                if s.ptype == ParticleType::Sand {
                    if s.extra_data1 == 0 {
                        proof { lemma_cell_index(x as int, y as int, x as int, y2 as int); }
                        sandbox.set(x, y, None);
                        let mut wet = s;
                        wet.extra_data1 = 1;
                        sandbox.set(x, y2, Some(wet));
                        return;
                    }
                } else {
                    return;
                }
            },
            None => {
                return;
            },
        }
        y2 = y2 + 1;
    }
}

/// Applies the Water rule to the particle at `(x, y)` (see `water_outcome`);
/// at 100 degrees or more one `u64` is drawn, and the water evaporates when
/// it lies below `evaporation_threshold` (the generator's Bernoulli draw
/// with the double-precision chance); below 100 degrees nothing is drawn.
pub fn update_water(sandbox: &mut Sandbox, x: usize, y: usize)
    requires
        updatable(*old(sandbox), x as int, y as int),
    ensures
        exists|v: u64| final(sandbox).cells@ == water_outcome(old(sandbox).cells@, x as int, y as int,
            #[trigger] evaporates(at(old(sandbox).cells@, x as int, y as int).unwrap().temperature, v)),
        grid_changed(*old(sandbox), *final(sandbox)),
        old(sandbox).wf() ==> final(sandbox).wf(),
        at(old(sandbox).cells@, x as int, y as int).unwrap().temperature < 100 ==> final(sandbox).rng == old(sandbox).rng,
{
    let t = sandbox.get(x, y).unwrap().temperature;
    let mut v: u64 = 0;
    let mut evaporate = false;
    if t >= 100 {
        v = gen_u64(&mut sandbox.rng);
        evaporate = v < evaporation_threshold_at(t);
    }
    assert(evaporate == evaporates(t, v));
    update_water_with(sandbox, x, y, evaporate);
}

/// `s` is a new Plant shoot with growth budget `budget`: what
/// `Particle::new(Plant, ..)` gives, with `extra_data1 = budget` and marked
/// growable (`extra_data2 = 1`).
pub open spec fn shoot_ok(s: Particle, budget: int) -> bool {
    &&& s.ptype == ParticleType::Plant
    &&& s.temperature == 0
    &&& s.extra_data1 == budget
    &&& s.extra_data2 == 1
    &&& -10 <= s.color_offset <= 10
    &&& s.last_update == 0
}

/// A Plant becomes growable (`extra_data2 = 1`) above wet Sand or above a
/// growable Plant.
pub open spec fn plant_marked(g: Seq<Option<Particle>>, x: int, y: int) -> Particle {
    let p = at(g, x, y).unwrap();
    if y != SANDBOX_HEIGHT - 1 && (at(g, x, y + 1) matches Some(b)
        && ((b.ptype == ParticleType::Sand && b.extra_data1 == 1) || (b.ptype == ParticleType::Plant && b.extra_data2 == 1))) {
        with_extra2(p, 1i8)
    } else {
        p
    }
}

/// Plant, with the growth offset `(dx, dy)` and the new shoot given: above
/// 100 degrees it turns into Fire; otherwise it is marked (see
/// `plant_marked`), and a growable plant with budget left, below the top row,
/// puts `shoot` into the cell at offset `(dx, dy)` if that is empty.
pub open spec fn plant_outcome(g: Seq<Option<Particle>>, x: int, y: int, dx: int, dy: int, shoot: Particle) -> Seq<Option<Particle>> {
    let p = at(g, x, y).unwrap();
    if p.temperature > 100 {
        put(g, x, y, Some(Particle { ptype: ParticleType::Fire, ..p }))
    } else {
        let q = plant_marked(g, x, y);
        let g1 = put(g, x, y, Some(q));
        if y != 0 && q.extra_data2 == 1 && q.extra_data1 > 0 && vacant(g1, x + dx, y + dy) {
            put(g1, x + dx, y + dy, Some(shoot))
        } else {
            g1
        }
    }
}

/// `new` is what the Plant rule makes of `g`: the outcome for some growth
/// offset in -1..=1 by -2..=2 and some new shoot whose budget is one less
/// (a plant without budget left grows no shoot).
pub open spec fn plant_ok(g: Seq<Option<Particle>>, new: Seq<Option<Particle>>, x: int, y: int) -> bool {
    exists|dx: int, dy: int, shoot: Particle|
        -1 <= dx <= 1 && -2 <= dy <= 2
        && (plant_marked(g, x, y).extra_data1 > 0 ==> shoot_ok(shoot, plant_marked(g, x, y).extra_data1 - 1))
        && new == #[trigger] plant_outcome(g, x, y, dx, dy, shoot)
}

/// Applies the Plant rule to the particle at `(x, y)` with the growth
/// offset `(dx, dy)` and the new shoot given (see `plant_outcome`).
pub fn update_plant_with(sandbox: &mut Sandbox, x: usize, y: usize, dx: isize, dy: isize, shoot: Particle)
    requires
        updatable(*old(sandbox), x as int, y as int),
        -1 <= dx <= 1,
        -2 <= dy <= 2,
    ensures
        final(sandbox).cells@ == plant_outcome(old(sandbox).cells@, x as int, y as int, dx as int, dy as int, shoot),
        grid_changed(*old(sandbox), *final(sandbox)),
        old(sandbox).wf() && cell_ok(Some(shoot)) ==> final(sandbox).wf(),
        final(sandbox).rng == old(sandbox).rng,
{
    let ghost g = sandbox.cells@;
    let p = sandbox.get(x, y).unwrap();
    proof { if old(sandbox).wf() { assert(cell_ok(g[x * SANDBOX_HEIGHT + y])); } }
    if p.temperature > 100 {
        let mut q = p;
        q.ptype = ParticleType::Fire;
        sandbox.set(x, y, Some(q));
        return;
    }
    let q = marked_plant(sandbox, x, y);
    sandbox.set(x, y, Some(q));
    if y != 0 && q.extra_data2 == 1 && q.extra_data1 > 0 {
        if let Some((nx, ny)) = neighbour(x, y, dx, dy) {
            if sandbox.get(nx, ny).is_none() {
                sandbox.set(nx, ny, Some(shoot));
            }
        }
    }
}

/// The Plant at `(x, y)` as `plant_marked` makes it.
fn marked_plant(sandbox: &Sandbox, x: usize, y: usize) -> (q: Particle)
    requires
        updatable(*sandbox, x as int, y as int),
    ensures
        q == plant_marked(sandbox.cells@, x as int, y as int),
{
    let mut q = sandbox.get(x, y).unwrap();
    if y != SANDBOX_HEIGHT - 1 {
        if let Some(b) = sandbox.get(x, y + 1) {
            if b.ptype == ParticleType::Sand && b.extra_data1 == 1 {
                q.extra_data2 = 1;
            }
            if b.ptype == ParticleType::Plant && b.extra_data2 == 1 {
                q.extra_data2 = 1;
            }
        }
    }
    q
}

/// Applies the Plant rule to the particle at `(x, y)` (see `plant_ok`): a
/// growable plant with budget left, below the top row, draws the offset, and
/// when the cell there is empty the shoot draws its state from the generator
/// (see `update_plant_with`).
pub fn update_plant(sandbox: &mut Sandbox, x: usize, y: usize)
    requires
        updatable(*old(sandbox), x as int, y as int),
    ensures
        plant_ok(old(sandbox).cells@, final(sandbox).cells@, x as int, y as int),
        grid_changed(*old(sandbox), *final(sandbox)),
        old(sandbox).wf() ==> final(sandbox).wf(),
{
    let ghost g = sandbox.cells@;
    let p = sandbox.get(x, y).unwrap();
    let q = marked_plant(sandbox, x, y);
    let budget: i8 = if q.extra_data1 > 0 { q.extra_data1 - 1 } else { 0 };
    let mut dx: isize = 0;
    let mut dy: isize = 0;
    let mut shoot = Particle {
        ptype: ParticleType::Plant, temperature: 0, extra_data1: budget, extra_data2: 1, color_offset: 0, last_update: 0,
    };
    if p.temperature <= 100 && y != 0 && q.extra_data2 == 1 && q.extra_data1 > 0 {
        dx = gen_range_isize(&mut sandbox.rng, -1, 2);
        dy = gen_range_isize(&mut sandbox.rng, -2, 3);
        if let Some((nx, ny)) = neighbour(x, y, dx, dy) {
            if (nx != x || ny != y) && sandbox.get(nx, ny).is_none() {
                shoot = Particle::new(ParticleType::Plant, &mut sandbox.rng);
                shoot.extra_data1 = budget;
                shoot.extra_data2 = 1;
            }
        }
    }
    proof { assert(cell_ok(Some(shoot))); }
    update_plant_with(sandbox, x, y, dx, dy, shoot);
    proof {
        assert(q.extra_data1 > 0 ==> shoot_ok(shoot, q.extra_data1 - 1));
        assert(sandbox.cells@ == plant_outcome(g, x as int, y as int, dx as int, dy as int, shoot));
    }
}

/// Life dies (`extra_data2 = 1`) below -50 or above 50 degrees.
pub open spec fn life_checked(p: Particle) -> Particle {
    if p.temperature < -50 || p.temperature > 50 { with_extra2(p, 1i8) } else { p }
}

/// Whether the living Life particle at `(x, y)` acts on its `k`-th
/// neighbour, with `coins[k]` the 1-in-5 coin for a Plant neighbour: it
/// converts a Plant when the coin falls, and absorbs Blood unless it already
/// is SuperLife.
pub open spec fn life_acts(g: Seq<Option<Particle>>, x: int, y: int, k: int, coins: Seq<bool>) -> bool {
    side_particle(g, x, y, k) matches Some(n)
        && ((n.ptype == ParticleType::Plant && coins[k])
            || (n.ptype == ParticleType::Blood && at(g, x, y).unwrap().ptype != ParticleType::SuperLife))
}

/// The first neighbour, from the `from`-th on, that a living Life particle
/// acts on; 4 when there is none.
pub open spec fn life_target(g: Seq<Option<Particle>>, x: int, y: int, from: int, coins: Seq<bool>) -> int
    decreases 4 - from,
{
    if from < 0 || from >= 4 {
        4
    } else if life_acts(g, x, y, from, coins) {
        from
    } else {
        life_target(g, x, y, from + 1, coins)
    }
}

/// The number of occupied cells stacked right above `(x, from + 1)`, i.e.
/// from row `from` upward until the first empty cell.
pub open spec fn stack_above(g: Seq<Option<Particle>>, x: int, from: int) -> int
    decreases from + 1,
{
    if from < 0 || at(g, x, from) is None { 0 } else { 1 + stack_above(g, x, from - 1) }
}

/// Life, with the coins and the new particle `born` given.
///
/// Too hot or too cold, it dies (see `life_checked`). Alive, it acts on the
/// first neighbour it can (see `life_acts`): a Plant becomes `born` (a new
/// Life particle), or a Blood particle disappears and the Life particle
/// becomes SuperLife. Dead, under a stack of more than 30 particles, it
/// becomes `born` (a new Blood particle) when `coins[0]` (1 in 10) falls.
pub open spec fn life_update_outcome(g: Seq<Option<Particle>>, x: int, y: int, coins: Seq<bool>, born: Particle) -> Seq<Option<Particle>> {
    let p = life_checked(at(g, x, y).unwrap());
    let g1 = put(g, x, y, Some(p));
    if p.extra_data2 == 0 {
        let k = life_target(g1, x, y, 0, coins);
        if k < 4 {
            let (nx, ny) = side_pos(x, y, k);
            if at(g1, nx, ny).unwrap().ptype == ParticleType::Plant && coins[k] {
                put(g1, nx, ny, Some(born))
            } else {
                put(put(g1, nx, ny, None), x, y, Some(Particle { ptype: ParticleType::SuperLife, ..p }))
            }
        } else {
            g1
        }
    } else if stack_above(g1, x, y - 1) > 30 && coins[0] {
        put(g1, x, y, Some(born))
    } else {
        g1
    }
}

/// `new` is what the Life rule makes of `g` for some coins and some new
/// particle of the kind the outcome needs (Life when alive, Blood when dead).
pub open spec fn life_update_ok(g: Seq<Option<Particle>>, new: Seq<Option<Particle>>, x: int, y: int) -> bool {
    exists|coins: Seq<bool>, born: Particle|
        coins.len() == 4
        && fresh_particle(born, if life_checked(at(g, x, y).unwrap()).extra_data2 == 0 {
            ParticleType::Life
        } else {
            ParticleType::Blood
        })
        && new == #[trigger] life_update_outcome(g, x, y, coins, born)
}

/// Counts the occupied cells stacked right above `(x, y)` (see `stack_above`).
fn count_stack(sb: &Sandbox, x: usize, y: usize) -> (count: usize)
    requires
        sb.sized(),
        in_grid(x as int, y as int),
    ensures
        count == stack_above(sb.cells@, x as int, y - 1),
{
    let ghost g = sb.cells@;
    let mut count: usize = 1;
    while count <= y
        invariant
            1 <= count <= y + 1,
            sb.sized(),
            sb.cells@ == g,
            in_grid(x as int, y as int),
            (count - 1) + stack_above(g, x as int, y - count) == stack_above(g, x as int, y - 1),
        ensures
            count - 1 == stack_above(g, x as int, y - 1),
        decreases y + 1 - count,
    {
        match sb.get(x, y - count) {
            Some(_) => {
                count = count + 1;
            },
            None => {
                break;
            },
        }
    }
    count - 1
}

/// Applies the Life rule to the particle at `(x, y)` with the coins and the
/// new particle given (see `life_update_outcome`).
pub fn update_life_with(sandbox: &mut Sandbox, x: usize, y: usize, coins: &[bool; 4], born: Particle)
    requires
        updatable(*old(sandbox), x as int, y as int),
    ensures
        final(sandbox).cells@ == life_update_outcome(old(sandbox).cells@, x as int, y as int, coins@, born),
        grid_changed(*old(sandbox), *final(sandbox)),
        old(sandbox).wf() && cell_ok(Some(born)) ==> final(sandbox).wf(),
        final(sandbox).rng == old(sandbox).rng,
{
    let ghost g = sandbox.cells@;
    let p0 = sandbox.get(x, y).unwrap();
    proof { if old(sandbox).wf() { assert(cell_ok(g[x * SANDBOX_HEIGHT + y])); } }
    let mut p = p0;
    if p.temperature < -50 || p.temperature > 50 {
        p.extra_data2 = 1;
    }
    proof { assert(p == life_checked(p0)); }
    sandbox.set(x, y, Some(p));
    let ghost g1 = sandbox.cells@;
    proof { lemma_coords(x as int, y as int); }
    if p.extra_data2 == 0 {
        let mut k: usize = 0;
        while k < 4
            invariant
                k <= 4,
                g == old(sandbox).cells@,
                g1 == put(g, x as int, y as int, Some(p)),
                at(g1, x as int, y as int) == Some(p),
                at(g, x as int, y as int) is Some,
                p == life_checked(at(g, x as int, y as int).unwrap()),
                p.extra_data2 == 0,
                sandbox.cells@ == g1,
                updatable(*sandbox, x as int, y as int),
                grid_changed(*old(sandbox), *sandbox),
                old(sandbox).wf() ==> sandbox.wf(),
                sandbox.rng == old(sandbox).rng,
                coins@.len() == 4,
                life_target(g1, x as int, y as int, 0, coins@) == life_target(g1, x as int, y as int, k as int, coins@),
            decreases 4 - k,
        {
            if let Some((nx, ny)) = side_cell(x, y, k) {
                proof { lemma_sides(x as int, y as int); lemma_cell_index(nx as int, ny as int, x as int, y as int); }
                if let Some(n) = sandbox.get(nx, ny) {
                    assert(side_particle(g1, x as int, y as int, k as int) == Some(n));
                    if n.ptype == ParticleType::Plant && coins[k] {
                        sandbox.set(nx, ny, Some(born));
                        proof {
                            assert(life_target(g1, x as int, y as int, k as int, coins@) == k);
                        }
                        return;
                    }
                    if n.ptype == ParticleType::Blood && p.ptype != ParticleType::SuperLife {
                        sandbox.set(nx, ny, None);
                        let mut sl = p;
                        sl.ptype = ParticleType::SuperLife;
                        sandbox.set(x, y, Some(sl));
                        proof {
                            assert(life_target(g1, x as int, y as int, k as int, coins@) == k);
                        }
                        return;
                    }
                }
            }
            proof {
                assert(!life_acts(g1, x as int, y as int, k as int, coins@));
                assert(life_target(g1, x as int, y as int, k as int, coins@)
                    == life_target(g1, x as int, y as int, k + 1, coins@));
            }
            k = k + 1;
        }
    } else {
        let count = count_stack(sandbox, x, y);
        if count > 30 && coins[0] {
            sandbox.set(x, y, Some(born));
            return;
        }
    }
}

/// Applies the Life rule to the particle at `(x, y)` (see `life_update_ok`):
/// a living particle scans its neighbours in order, drawing a 1-in-5 coin at
/// each Plant it reaches and stopping at the first it acts on; a dead one
/// under a stack of more than 30 particles draws a 1-in-10 coin. A new
/// particle draws its state only when a coin falls (see `update_life_with`).
pub fn update_life(sandbox: &mut Sandbox, x: usize, y: usize)
    requires
        updatable(*old(sandbox), x as int, y as int),
    ensures
        life_update_ok(old(sandbox).cells@, final(sandbox).cells@, x as int, y as int),
        grid_changed(*old(sandbox), *final(sandbox)),
        old(sandbox).wf() ==> final(sandbox).wf(),
{
    let ghost g = sandbox.cells@;
    let p0 = sandbox.get(x, y).unwrap();
    let mut p = p0;
    if p.temperature < -50 || p.temperature > 50 {
        p.extra_data2 = 1;
    }
    proof { assert(p == life_checked(p0)); }
    let mut coins: [bool; 4] = [false, false, false, false];
    let kind = if p.extra_data2 == 0 { ParticleType::Life } else { ParticleType::Blood };
    let mut born = Particle { ptype: kind, temperature: 0, extra_data1: 0, extra_data2: 0, color_offset: 0, last_update: 0 };
    if p.extra_data2 == 0 {
        let mut k: usize = 0;
        while k < 4
            invariant
                k <= 4,
                in_grid(x as int, y as int),
                sandbox.sized(),
                sandbox.cells@ == g,
                g == old(sandbox).cells@,
                grid_changed(*old(sandbox), *sandbox),
                coins@.len() == 4,
                kind == ParticleType::Life,
                fresh_particle(born, kind),
            decreases 4 - k,
        {
            let mut acted = false;
            if let Some((nx, ny)) = side_cell(x, y, k) {
                if let Some(n) = sandbox.get(nx, ny) {
                    if n.ptype == ParticleType::Plant {
                        let coin = gen_ratio(&mut sandbox.rng, 1, 5);
                        coins[k] = coin;
                        if coin {
                            born = Particle::new(ParticleType::Life, &mut sandbox.rng);
                            acted = true;
                        }
                    }
                    if !acted && n.ptype == ParticleType::Blood && p.ptype != ParticleType::SuperLife {
                        acted = true;
                    }
                }
            }
            if acted {
                break;
            }
            k = k + 1;
        }
    } else {
        let count = count_stack(sandbox, x, y);
        if count > 30 {
            let coin = gen_ratio(&mut sandbox.rng, 1, 10);
            coins[0] = coin;
            if coin {
                born = Particle::new(ParticleType::Blood, &mut sandbox.rng);
            }
        }
    }
    proof { assert(cell_ok(Some(born))); }
    update_life_with(sandbox, x, y, &coins, born);
}

/// A move to the cell `d`, which `to` reports: the two cells are exchanged.
pub open spec fn stepped(g: Seq<Option<Particle>>, new: Seq<Option<Particle>>, x: int, y: int, to: (int, int), d: (int, int)) -> bool {
    to == d && new == swapped(g, x, y, d.0, d.1)
}

/// Whether moving particle `p` may draw from the generator: the kinds that
/// move as a powder, a liquid or a gas or walk as Life (coins for the side,
/// and for a gas whether to rise) and Electricity (the order of its
/// directions). Every
/// other kind, and every particle that stays put by its kind, draws nothing.
pub open spec fn moves_by_chance(p: Particle) -> bool {
    match p.ptype {
        ParticleType::Sand => p.extra_data1 == 0,
        ParticleType::Plant => p.extra_data2 == 0,
        ParticleType::Water => p.temperature > -80,
        ParticleType::Glass => p.temperature >= 30,
        ParticleType::Acid | ParticleType::Blood | ParticleType::Glitch | ParticleType::Electricity
            | ParticleType::Life | ParticleType::SuperLife
            | ParticleType::Smoke | ParticleType::Steam | ParticleType::Fire => true,
        _ => false,
    }
}

/// What moving particle `p`, which sits at `(x, y)` of `g`, does: each kind
/// moves by its rule, and the kinds that do not move stay put.
pub open spec fn move_ok(p: Particle, g: Seq<Option<Particle>>, new: Seq<Option<Particle>>, x: int, y: int, to: (int, int)) -> bool {
    match p.ptype {
        ParticleType::Sand => if p.extra_data1 == 0 {
            exists|rf: bool| stepped(g, new, x, y, to, #[trigger] powder_dest(g, x, y, rf))
        } else if p.extra_data1 == 1 {
            stepped(g, new, x, y, to, solid_dest(g, x, y))
        } else {
            to == (x, y) && new == g
        },
        ParticleType::Water => if p.temperature > -80 {
            exists|rf: bool| stepped(g, new, x, y, to, #[trigger] liquid_dest(g, x, y, rf))
        } else {
            stepped(g, new, x, y, to, solid_dest(g, x, y))
        },
        ParticleType::Acid | ParticleType::Blood | ParticleType::Glitch =>
            exists|rf: bool| stepped(g, new, x, y, to, #[trigger] liquid_dest(g, x, y, rf)),
        ParticleType::Iridium | ParticleType::Replicator | ParticleType::Unstable | ParticleType::Mirror =>
            to == (x, y) && new == g,
        ParticleType::Plant => if p.extra_data2 == 0 {
            exists|rf: bool| stepped(g, new, x, y, to, #[trigger] powder_dest(g, x, y, rf))
        } else {
            to == (x, y) && new == g
        },
        ParticleType::Cryotheum => stepped(g, new, x, y, to, solid_dest(g, x, y)),
        ParticleType::Electricity => exists|order: Seq<(isize, isize)>|
            order.to_multiset() == base_offsets().to_multiset()
            && (new, to) == #[trigger] electricity_outcome(g, x, y, order),
        ParticleType::Glass => if p.temperature >= 30 {
            exists|rf: bool| stepped(g, new, x, y, to, #[trigger] liquid_dest(g, x, y, rf))
        } else {
            stepped(g, new, x, y, to, solid_dest(g, x, y))
        },
        ParticleType::Life => exists|rf: bool| (new, to) == #[trigger] life_outcome(g, x, y, rf),
        ParticleType::SuperLife => exists|c1: bool, c2: bool| (new, to) == #[trigger] super_life_outcome(g, x, y, c1, c2),
        ParticleType::Smoke | ParticleType::Steam => exists|rise: bool, rf: bool|
            stepped(g, new, x, y, to, #[trigger] gas_dest(g, x, y, rise, rf)),
        ParticleType::Fire => exists|rise: bool, rf: bool| (new, to) == #[trigger] fire_outcome(g, x, y, rise, rf),
    }
}

/// Flowing particles (Acid, Blood, Glitch, Water above -80 degrees and
/// Glass at 30 degrees or more) behave as liquids: one with an empty cell
/// right below it falls into it; one that cannot fall straight down but
/// has an empty cell diagonally below, with the cell beside it on that side
/// empty too, slides there; and one that can do neither (on the floor, or
/// blocked below and on both diagonals) with an empty cell beside it moves
/// into an empty cell beside it. Whenever it moves, it is the moved
/// particle that ends up in its new cell and its old cell is left empty.
pub proof fn lemma_liquids_fall_and_spread(p: Particle, g: Seq<Option<Particle>>, new: Seq<Option<Particle>>, x: int, y: int, to: (int, int))
    requires
        g.len() == n_cells(),
        in_grid(x, y),
        at(g, x, y) == Some(p),
        p.ptype == ParticleType::Acid || p.ptype == ParticleType::Blood || p.ptype == ParticleType::Glitch
            || (p.ptype == ParticleType::Water && p.temperature > -80)
            || (p.ptype == ParticleType::Glass && p.temperature >= 30),
        move_ok(p, g, new, x, y, to),
    ensures
        y + 1 < SANDBOX_HEIGHT && at(g, x, y + 1) is None ==> to == (x, y + 1),
        ({
            let slide_left = x > 0 && at(g, x - 1, y + 1) is None && at(g, x - 1, y) is None;
            let slide_right = x + 1 < SANDBOX_WIDTH && at(g, x + 1, y + 1) is None && at(g, x + 1, y) is None;
            y + 1 < SANDBOX_HEIGHT && at(g, x, y + 1) is Some && (slide_left || slide_right) ==> {
                &&& to.1 == y + 1
                &&& (to.0 == x - 1 && slide_left || to.0 == x + 1 && slide_right)
                &&& at(new, to.0, to.1) == Some(p)
                &&& at(new, x, y) is None
            }
        }),
        ({
            let slide_left = x > 0 && at(g, x - 1, y + 1) is None && at(g, x - 1, y) is None;
            let slide_right = x + 1 < SANDBOX_WIDTH && at(g, x + 1, y + 1) is None && at(g, x + 1, y) is None;
            let resting = y == SANDBOX_HEIGHT - 1 || (at(g, x, y + 1) is Some && !slide_left && !slide_right);
            resting && ((x > 0 && at(g, x - 1, y) is None) || (x + 1 < SANDBOX_WIDTH && at(g, x + 1, y) is None)) ==> {
                &&& to.1 == y
                &&& (to.0 == x - 1 || to.0 == x + 1)
                &&& in_grid(to.0, to.1)
                &&& at(g, to.0, to.1) is None
                &&& at(new, to.0, to.1) == Some(p)
                &&& at(new, x, y) is None
            }
        }),
{
    let rf = choose|rf: bool| stepped(g, new, x, y, to, #[trigger] liquid_dest(g, x, y, rf));
    assert(stepped(g, new, x, y, to, liquid_dest(g, x, y, rf)));
    lemma_coords(x, y);
    if in_grid(to.0, to.1) {
        lemma_cell_index(x, y, to.0, to.1);
    }
}

/// What updating particle `p`, which sits at `(x, y)` of `g`, does: each
/// kind follows its update rule; Iridium and Glass do nothing.
pub open spec fn update_ok(p: Particle, g: Seq<Option<Particle>>, new: Seq<Option<Particle>>, x: int, y: int) -> bool {
    match p.ptype {
        ParticleType::Sand => new == sand_outcome(g, x, y),
        ParticleType::Water => exists|evaporate: bool| new == #[trigger] water_outcome(g, x, y, evaporate),
        ParticleType::Acid => new == acid_outcome(g, x, y),
        ParticleType::Iridium | ParticleType::Glass => new == g,
        ParticleType::Replicator => replicator_ok(g, new, x, y),
        ParticleType::Plant => plant_ok(g, new, x, y),
        ParticleType::Cryotheum => new == cryotheum_outcome(g, x, y),
        ParticleType::Unstable => unstable_outcome_ok(g, new, x, y),
        ParticleType::Electricity => new == electricity_update_outcome(g, x, y),
        ParticleType::Life | ParticleType::SuperLife => life_update_ok(g, new, x, y),
        ParticleType::Blood => new == blood_outcome(g, x, y),
        ParticleType::Smoke => new == smoke_outcome(g, x, y),
        ParticleType::Fire => fire_update_ok(g, new, x, y),
        ParticleType::Mirror => new == mirror_outcome(g, x, y),
        ParticleType::Steam => new == steam_outcome(g, x, y),
        ParticleType::Glitch => glitch_ok(g, new, x, y),
    }
}

impl Particle {
    /// Moves this particle, which sits at `(x, y)`, by the rule of its kind
    /// (see `move_ok`) and returns where it ended up.
    pub fn move_particle(&self, sandbox: &mut Sandbox, x: usize, y: usize) -> (to: (usize, usize))
        requires
            old(sandbox).wf(),
            in_grid(x as int, y as int),
            at(old(sandbox).cells@, x as int, y as int) == Some(*self),
        ensures
            move_ok(*self, old(sandbox).cells@, final(sandbox).cells@, x as int, y as int, (to.0 as int, to.1 as int)),
            final(sandbox).wf(),
            in_grid(to.0 as int, to.1 as int),
            at(final(sandbox).cells@, to.0 as int, to.1 as int) is Some,
            same_frame(*final(sandbox), *old(sandbox)),
            !moves_by_chance(*self) ==> final(sandbox).rng == old(sandbox).rng,
    {
        let ghost g = sandbox.cells@;
        proof {
            lemma_coords(x as int, y as int);
            assert(cell_ok(g[x * SANDBOX_HEIGHT + y]));
        }
        let mut new_position = (x, y);
        match self.ptype {
            ParticleType::Sand => {
                if self.extra_data1 == 0 {
                    new_position = move_powder(sandbox, x, y);
                } else if self.extra_data1 == 1 {
                    new_position = move_solid(sandbox, x, y);
                }
            },
            ParticleType::Water => {
                if self.temperature > -80 {
                    new_position = move_liquid(sandbox, x, y);
                } else {
                    new_position = move_solid(sandbox, x, y);
                }
            },
            ParticleType::Acid => new_position = move_liquid(sandbox, x, y),
            ParticleType::Iridium => {},
            ParticleType::Replicator => {},
            ParticleType::Plant => {
                if self.extra_data2 == 0 {
                    new_position = move_powder(sandbox, x, y);
                }
            },
            ParticleType::Cryotheum => new_position = move_solid(sandbox, x, y),
            ParticleType::Unstable => {},
            ParticleType::Electricity => new_position = move_electricity(sandbox, x, y),
            ParticleType::Glass => {
                if self.temperature >= 30 {
                    new_position = move_liquid(sandbox, x, y);
                } else {
                    new_position = move_solid(sandbox, x, y);
                }
            },
            ParticleType::Life => new_position = move_life(sandbox, x, y),
            ParticleType::SuperLife => new_position = move_super_life(sandbox, x, y),
            ParticleType::Blood => new_position = move_liquid(sandbox, x, y),
            ParticleType::Smoke => new_position = move_gas(sandbox, x, y),
            ParticleType::Fire => new_position = move_fire(sandbox, x, y),
            ParticleType::Mirror => {},
            ParticleType::Steam => new_position = move_gas(sandbox, x, y),
            ParticleType::Glitch => new_position = move_liquid(sandbox, x, y),
        }
        new_position
    }

    /// Applies the update rule of this particle's kind (see `update_ok`) to
    /// this particle, which sits at `(x, y)`.
    pub fn update(&self, sandbox: &mut Sandbox, x: usize, y: usize)
        requires
            old(sandbox).wf(),
            in_grid(x as int, y as int),
            at(old(sandbox).cells@, x as int, y as int) == Some(*self),
        ensures
            update_ok(*self, old(sandbox).cells@, final(sandbox).cells@, x as int, y as int),
            final(sandbox).wf(),
            same_frame(*final(sandbox), *old(sandbox)),
    {
        match self.ptype {
            ParticleType::Sand => update_sand(sandbox, x, y),
            ParticleType::Water => update_water(sandbox, x, y),
            ParticleType::Acid => update_acid(sandbox, x, y),
            ParticleType::Iridium => {},
            ParticleType::Replicator => update_replicator(sandbox, x, y),
            ParticleType::Plant => update_plant(sandbox, x, y),
            ParticleType::Cryotheum => update_cryotheum(sandbox, x, y),
            ParticleType::Unstable => update_unstable(sandbox, x, y),
            ParticleType::Electricity => update_electricity(sandbox, x, y),
            ParticleType::Glass => {},
            ParticleType::Life => update_life(sandbox, x, y),
            ParticleType::SuperLife => update_life(sandbox, x, y),
            ParticleType::Blood => update_blood(sandbox, x, y),
            ParticleType::Smoke => update_smoke(sandbox, x, y),
            ParticleType::Fire => update_fire(sandbox, x, y),
            ParticleType::Mirror => update_mirror(sandbox, x, y),
            ParticleType::Steam => update_steam(sandbox, x, y),
            ParticleType::Glitch => update_glitch(sandbox, x, y),
        }
    }
}

} // verus!
