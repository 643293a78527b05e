//! One simulation step of the sandbox: a movement pass, a temperature pass
//! and an update pass, and what each pass keeps.

use vstd::prelude::*;
use vstd::multiset::Multiset;
use crate::particle::{Particle, ParticleType};
use crate::behavior::{move_ok, update_ok, stepped, gas_dest, powder_dest, liquid_dest, solid_dest, electricity_outcome, life_outcome, super_life_outcome, super_swap, fire_outcome, with_extra1, with_extra2, base_offsets, first_water, direction, inc_sat, dec_sat};
use crate::sandbox::{holds_kind, vacant};
use crate::sandbox::{Sandbox, SANDBOX_HEIGHT, SANDBOX_WIDTH, at, put, swapped, in_grid, n_cells, cell_index, cell_ok, next_counter, exchanged, lemma_coords, lemma_cell_index, lemma_index_coords};

verus! {

/// The kind of particle in a cell, if any.
pub open spec fn kind_of(c: Option<Particle>) -> Option<ParticleType> {
    match c {
        Some(p) => Some(p.ptype),
        None => None,
    }
}

/// How many cells of `g` hold each kind (and how many are empty).
pub open spec fn kinds(g: Seq<Option<Particle>>) -> Multiset<Option<ParticleType>> {
    g.map_values(|c: Option<Particle>| kind_of(c)).to_multiset()
}

/// The kind and the temperature of the particle in a cell, if any.
pub open spec fn kind_heat_of(c: Option<Particle>) -> Option<(ParticleType, i16)> {
    match c {
        Some(p) => Some((p.ptype, p.temperature)),
        None => None,
    }
}

/// How many cells of `g` hold a particle of each kind at each temperature
/// (and how many are empty).
pub open spec fn census(g: Seq<Option<Particle>>) -> Multiset<Option<(ParticleType, i16)>> {
    g.map_values(|c: Option<Particle>| kind_heat_of(c)).to_multiset()
}

/// Two sequences with the same elements, counted with multiplicity, keep
/// that property under any map.
proof fn lemma_map_multiset<A, B>(s1: Seq<A>, s2: Seq<A>, f: spec_fn(A) -> B)
    requires
        s1.to_multiset() == s2.to_multiset(),
    ensures
        s1.map_values(f).to_multiset() == s2.map_values(f).to_multiset(),
    decreases s1.len(),
{
    broadcast use vstd::seq_lib::group_to_multiset_ensures;
    broadcast use vstd::multiset::group_multiset_axioms;
    if s1.len() == 0 {
        assert(s2.to_multiset().len() == 0);
        assert(s2.len() == 0);
        assert(s1.map_values(f) =~= s2.map_values(f));
    } else {
        let a = s1.last();
        let t1 = s1.drop_last();
        assert(t1.push(a) =~= s1);
        assert(s1.to_multiset() =~= t1.to_multiset().insert(a));
        assert(s1.to_multiset().count(a) > 0);
        assert(s2.contains(a));
        let j = choose|j: int| 0 <= j < s2.len() && s2[j] == a;
        let t2 = s2.remove(j);
        assert(t2.to_multiset() =~= s2.to_multiset().remove(a));
        assert(t1.to_multiset() =~= t2.to_multiset());
        lemma_map_multiset(t1, t2, f);
        let m1 = s1.map_values(f);
        let m2 = s2.map_values(f);
        assert(t1.map_values(f).push(f(a)) =~= m1);
        assert(m1.to_multiset() =~= t1.map_values(f).to_multiset().insert(f(a)));
        assert(m2.remove(j) =~= t2.map_values(f));
        assert(m2[j] == f(a));
        assert(m2.remove(j).to_multiset() =~= m2.to_multiset().remove(f(a)));
        assert(m2.to_multiset().count(f(a)) > 0);
        assert(m2.to_multiset() =~= m2.to_multiset().remove(f(a)).insert(f(a)));
    }
}

/// The census by kind and temperature determines the census by kind.
proof fn lemma_census_kinds(a: Seq<Option<Particle>>, b: Seq<Option<Particle>>)
    requires
        census(a) == census(b),
    ensures
        kinds(a) == kinds(b),
{
    let f = |c: Option<Particle>| kind_heat_of(c);
    let h = |k: Option<(ParticleType, i16)>| match k { Some(v) => Some(v.0), None => None::<ParticleType> };
    lemma_map_multiset(a.map_values(f), b.map_values(f), h);
    assert(a.map_values(f).map_values(h) =~= a.map_values(|c: Option<Particle>| kind_of(c)));
    assert(b.map_values(f).map_values(h) =~= b.map_values(|c: Option<Particle>| kind_of(c)));
}

/// Writing a cell with the kind it already had keeps the census.
pub proof fn lemma_put_same_kind(g: Seq<Option<Particle>>, x: int, y: int, c: Option<Particle>)
    requires
        g.len() == n_cells(),
        in_grid(x, y),
        kind_heat_of(c) == kind_heat_of(at(g, x, y)),
    ensures
        census(put(g, x, y, c)) == census(g),
{
    lemma_coords(x, y);
    assert(put(g, x, y, c).map_values(|c: Option<Particle>| kind_heat_of(c))
        =~= g.map_values(|c: Option<Particle>| kind_heat_of(c)));
}

/// Exchanging two cells keeps the census.
pub proof fn lemma_swap_kinds(g: Seq<Option<Particle>>, x1: int, y1: int, x2: int, y2: int)
    requires
        g.len() == n_cells(),
        in_grid(x1, y1),
        in_grid(x2, y2),
    ensures
        census(swapped(g, x1, y1, x2, y2)) == census(g),
{
    broadcast use vstd::multiset::group_multiset_axioms;
    lemma_coords(x1, y1);
    lemma_coords(x2, y2);
    lemma_cell_index(x1, y1, x2, y2);
    let i = cell_index(x1, y1);
    let j = cell_index(x2, y2);
    let f = |c: Option<Particle>| kind_heat_of(c);
    let s = g.map_values(f);
    if i == j {
        assert(swapped(g, x1, y1, x2, y2) =~= g);
    } else {
        let s1 = s.update(i, s[j]);
        let s2 = s1.update(j, s[i]);
        assert(swapped(g, x1, y1, x2, y2).map_values(f) =~= s2);
        vstd::seq_lib::to_multiset_update(s, i, s[j]);
        vstd::seq_lib::to_multiset_update(s1, j, s[i]);
        assert(s1[j] == s[j]);
        let a = s[i];
        let b = s[j];
        let m = s.to_multiset();
        vstd::seq_lib::to_multiset_contains(s, a);
        vstd::seq_lib::to_multiset_contains(s, b);
        assert(s.contains(a));
        assert(s.contains(b));
        let m1 = m.insert(b).remove(a);
        assert(m.insert(b).count(a) > 0);
        assert(m1.insert(a).count(b) > 0);
        assert forall|v: Option<(ParticleType, i16)>| #[trigger] s2.to_multiset().count(v) == m.count(v) by {
            assert(s2.to_multiset() == m1.insert(a).remove(b));
        }
        assert(s2.to_multiset() =~= s.to_multiset());
    }
}

/// The first Water position found is one that holds Water.
proof fn lemma_first_water(g: Seq<Option<Particle>>, x: int, y: int, order: Seq<(isize, isize)>, from: int)
    requires
        0 <= from,
    ensures
        first_water(g, x, y, order, from) < order.len() ==> {
            let k = first_water(g, x, y, order, from);
            0 <= k && holds_kind(g, x + order[k].0, y + order[k].1, ParticleType::Water)
        },
    decreases order.len() - from,
{
    if from < order.len() && !holds_kind(g, x + order[from].0, y + order[from].1, ParticleType::Water) {
        lemma_first_water(g, x, y, order, from + 1);
    }
}

/// A Life move keeps the census and leaves the particle on the grid.
proof fn lemma_life_outcome(g: Seq<Option<Particle>>, x: int, y: int, rf: bool)
    requires
        g.len() == n_cells(),
        in_grid(x, y),
        at(g, x, y) is Some,
    ensures
        ({
            let (new, to) = life_outcome(g, x, y, rf);
            &&& census(new) == census(g)
            &&& new.len() == g.len()
            &&& in_grid(to.0, to.1)
            &&& at(new, to.0, to.1) is Some
        }),
{
    let p = at(g, x, y).unwrap();
    lemma_coords(x, y);
    if y != SANDBOX_HEIGHT - 1 && vacant(g, x, y + 1) {
        let q = with_extra1(p, inc_sat(p.extra_data1));
        lemma_put_same_kind(g, x, y, Some(q));
        lemma_swap_kinds(put(g, x, y, Some(q)), x, y, x, y + 1);
        lemma_cell_index(x, y, x, y + 1);
    } else {
        let q = if p.extra_data1 > 60 { with_extra2(p, 1i8) } else { with_extra1(p, 0i8) };
        let g1 = put(g, x, y, Some(q));
        lemma_put_same_kind(g, x, y, Some(q));
        if x != 0 {
            lemma_swap_kinds(g1, x, y, x - 1, y);
            lemma_cell_index(x, y, x - 1, y);
        }
        if x != SANDBOX_WIDTH - 1 {
            lemma_swap_kinds(g1, x, y, x + 1, y);
            lemma_cell_index(x, y, x + 1, y);
        }
    }
}

/// Moving a particle never creates, destroys, transmutes, heats or cools a
/// particle: the number of cells holding each kind (and of empty cells) is
/// the same before and after, and so is the number holding each kind at
/// each temperature, whichever way the random choices fall.
pub proof fn lemma_move_keeps_kinds(p: Particle, g: Seq<Option<Particle>>, new: Seq<Option<Particle>>, x: int, y: int, to: (int, int))
    requires
        g.len() == n_cells(),
        in_grid(x, y),
        at(g, x, y) == Some(p),
        move_ok(p, g, new, x, y, to),
    ensures
        kinds(new) == kinds(g),
        census(new) == census(g),
{
    lemma_move_keeps_census(p, g, new, x, y, to);
    lemma_census_kinds(new, g);
}

/// One move keeps the census by kind and temperature.
proof fn lemma_move_keeps_census(p: Particle, g: Seq<Option<Particle>>, new: Seq<Option<Particle>>, x: int, y: int, to: (int, int))
    requires
        g.len() == n_cells(),
        in_grid(x, y),
        at(g, x, y) == Some(p),
        move_ok(p, g, new, x, y, to),
    ensures
        census(new) == census(g),
{
    lemma_coords(x, y);
    match p.ptype {
        ParticleType::Electricity => {
            let order = choose|order: Seq<(isize, isize)>|
                order.to_multiset() == base_offsets().to_multiset()
                && (new, to) == #[trigger] electricity_outcome(g, x, y, order);
            if p.extra_data2 != 0 {
                let g1 = put(g, x, y, Some(with_extra2(p, p.extra_data2.wrapping_sub(1))));
                lemma_put_same_kind(g, x, y, Some(with_extra2(p, p.extra_data2.wrapping_sub(1))));
                let d = direction(p.extra_data1);
                if holds_kind(g1, x + d.0, y + d.1, ParticleType::Water) {
                    lemma_swap_kinds(g1, x, y, x + d.0, y + d.1);
                }
            } else {
                lemma_first_water(g, x, y, order, 0);
                let k = first_water(g, x, y, order, 0);
                if k < order.len() {
                    lemma_swap_kinds(g, x, y, x + order[k].0, y + order[k].1);
                } else if y != SANDBOX_HEIGHT - 1 {
                    if at(g, x, y + 1) is None {
                        lemma_swap_kinds(g, x, y, x, y + 1);
                    } else {
                        lemma_put_same_kind(g, x, y, Some(with_extra2(p, -1i8)));
                    }
                } else {
                    lemma_put_same_kind(g, x, y, Some(with_extra2(p, -1i8)));
                }
            }
        },
        ParticleType::Life => {
            let rf = choose|rf: bool| (new, to) == #[trigger] life_outcome(g, x, y, rf);
            lemma_life_outcome(g, x, y, rf);
        },
        ParticleType::SuperLife => {
            let (c1, c2) = choose|c1: bool, c2: bool| (new, to) == #[trigger] super_life_outcome(g, x, y, c1, c2);
            let (g1, p1) = super_swap(g, x, y);
            if y != SANDBOX_HEIGHT - 1 && holds_kind(g, x, y + 1, ParticleType::Life) {
                lemma_swap_kinds(g, x, y, x, y + 1);
                lemma_cell_index(x, y, x, y + 1);
            } else if x != SANDBOX_WIDTH - 1 && holds_kind(g, x + 1, y, ParticleType::Life) {
                lemma_swap_kinds(g, x, y, x + 1, y);
                lemma_cell_index(x, y, x + 1, y);
            } else if y != 0 && holds_kind(g, x, y - 1, ParticleType::Life) {
                lemma_swap_kinds(g, x, y, x, y - 1);
                lemma_cell_index(x, y, x, y - 1);
            } else if x != 0 && holds_kind(g, x - 1, y, ParticleType::Life) {
                lemma_swap_kinds(g, x, y, x - 1, y);
                lemma_cell_index(x, y, x - 1, y);
            }
            assert(census(g1) == census(g));
            assert(at(g1, p1.0, p1.1) is Some);
            lemma_life_outcome(g1, p1.0, p1.1, c1);
            let (g2, p2) = life_outcome(g1, p1.0, p1.1, c1);
            lemma_life_outcome(g2, p2.0, p2.1, c2);
        },
        ParticleType::Fire => {
            let (rise, rf) = choose|rise: bool, rf: bool| (new, to) == #[trigger] fire_outcome(g, x, y, rise, rf);
            let d = gas_dest(g, x, y, rise, rf);
            let g1 = swapped(g, x, y, d.0, d.1);
            lemma_swap_kinds(g, x, y, d.0, d.1);
            lemma_cell_index(x, y, d.0, d.1);
            lemma_coords(d.0, d.1);
            let q = at(g1, d.0, d.1).unwrap();
            let e = if d.1 == y { q.extra_data2.wrapping_add(1) } else { dec_sat(q.extra_data2) };
            lemma_put_same_kind(g1, d.0, d.1, Some(with_extra2(q, e)));
        },
        ParticleType::Smoke | ParticleType::Steam => {
            let (rise, rf) = choose|rise: bool, rf: bool| stepped(g, new, x, y, to, #[trigger] gas_dest(g, x, y, rise, rf));
            lemma_swap_kinds(g, x, y, to.0, to.1);
        },
        _ => {
            lemma_dests_in_grid(g, x, y);
            if new != g {
                lemma_swap_kinds(g, x, y, to.0, to.1);
            }
        },
    }
}

/// Every movement rule's destination lies on the grid, whichever way the
/// coins fall.
proof fn lemma_dests_in_grid(g: Seq<Option<Particle>>, x: int, y: int)
    requires
        in_grid(x, y),
    ensures
        in_grid(solid_dest(g, x, y).0, solid_dest(g, x, y).1),
        forall|rf: bool| #![trigger powder_dest(g, x, y, rf)] in_grid(powder_dest(g, x, y, rf).0, powder_dest(g, x, y, rf).1),
        forall|rf: bool| #![trigger liquid_dest(g, x, y, rf)] in_grid(liquid_dest(g, x, y, rf).0, liquid_dest(g, x, y, rf).1),
{
}

/// `p` stamped with update counter value `c`.
pub open spec fn stamped(p: Particle, c: u8) -> Particle {
    Particle { last_update: c, ..p }
}

/// One step of the movement pass, at storage position `i` (cell
/// `(i / SANDBOX_HEIGHT, i % SANDBOX_HEIGHT)`) with counter value `c`: a
/// particle there that is not yet stamped with `c` moves by its rule (see
/// `move_ok`) and is stamped with `c` where it ends up.
pub open spec fn move_step(g: Seq<Option<Particle>>, new: Seq<Option<Particle>>, i: int, c: u8) -> bool {
    let x = i / (SANDBOX_HEIGHT as int);
    let y = i % (SANDBOX_HEIGHT as int);
    match at(g, x, y) {
        Some(p) => if p.last_update != c {
            exists|mid: Seq<Option<Particle>>, to: (int, int)|
                #[trigger] move_ok(p, g, mid, x, y, to) && in_grid(to.0, to.1) && at(mid, to.0, to.1) is Some
                && new == put(mid, to.0, to.1, Some(stamped(at(mid, to.0, to.1).unwrap(), c)))
        } else {
            new == g
        },
        None => new == g,
    }
}

/// One step of the update pass, at storage position `i` with counter value
/// `c`: a particle there that is not stamped with `c` follows its update
/// rule (see `update_ok`).
pub open spec fn update_step(g: Seq<Option<Particle>>, new: Seq<Option<Particle>>, i: int, c: u8) -> bool {
    let x = i / (SANDBOX_HEIGHT as int);
    let y = i % (SANDBOX_HEIGHT as int);
    match at(g, x, y) {
        Some(p) => if p.last_update != c { update_ok(p, g, new, x, y) } else { new == g },
        None => new == g,
    }
}

/// `new` results from `g` by a movement pass with counter `c`: a sequence of
/// grids, one per visited cell in storage order, each step a `move_step`.
pub open spec fn move_pass(g: Seq<Option<Particle>>, new: Seq<Option<Particle>>, c: u8) -> bool {
    exists|trace: Seq<Seq<Option<Particle>>>|
        trace.len() == n_cells() + 1 && trace[0] == g && trace[n_cells()] == new
        && forall|i: int| 0 <= i < n_cells() ==> #[trigger] move_step(trace[i], trace[i + 1], i, c)
}

/// `new` results from `g` by an update pass with counter `c` (see `move_pass`).
pub open spec fn update_pass(g: Seq<Option<Particle>>, new: Seq<Option<Particle>>, c: u8) -> bool {
    exists|trace: Seq<Seq<Option<Particle>>>|
        trace.len() == n_cells() + 1 && trace[0] == g && trace[n_cells()] == new
        && forall|i: int| 0 <= i < n_cells() ==> #[trigger] update_step(trace[i], trace[i + 1], i, c)
}

/// The next value of the update counter, as `checked_add(1).unwrap_or(1)`.
fn advance_counter(c: u8) -> (n: u8)
    ensures
        n == next_counter(c),
{
    match c.checked_add(1) {
        Some(v) => v,
        None => 1,
    }
}

impl Sandbox {
    /// The movement pass: the update counter advances, then every particle
    /// not yet stamped with it, in storage order, moves and is stamped (see
    /// `move_pass`), so that a particle moved ahead of the scan is not moved
    /// again.
    pub fn move_update(&mut self)
        requires
            old(self).wf(),
        ensures
            final(self).wf(),
            final(self).update_counter == next_counter(old(self).update_counter),
            move_pass(old(self).cells@, final(self).cells@, final(self).update_counter),
            final(self).last_cells == old(self).last_cells,
            final(self).background == old(self).background,
    {
        self.update_counter = advance_counter(self.update_counter);
        let c = self.update_counter;
        let ghost g0 = self.cells@;
        let ghost mut trace: Seq<Seq<Option<Particle>>> = seq![self.cells@];
        let mut x: usize = 0;
        while x < SANDBOX_WIDTH
            invariant
                x <= SANDBOX_WIDTH,
                self.wf(),
                c == self.update_counter,
                c == next_counter(old(self).update_counter),
                g0 == old(self).cells@,
                self.last_cells == old(self).last_cells,
                self.background == old(self).background,
                trace.len() == x * SANDBOX_HEIGHT + 1,
                trace[0] == g0,
                trace.last() == self.cells@,
                forall|i: int| 0 <= i < x * SANDBOX_HEIGHT ==> #[trigger] move_step(trace[i], trace[i + 1], i, c),
            decreases SANDBOX_WIDTH - x,
        {
            let mut y: usize = 0;
            while y < SANDBOX_HEIGHT
                invariant
                    x < SANDBOX_WIDTH,
                    y <= SANDBOX_HEIGHT,
                    self.wf(),
                    c == self.update_counter,
                    c == next_counter(old(self).update_counter),
                    g0 == old(self).cells@,
                    self.last_cells == old(self).last_cells,
                    self.background == old(self).background,
                    trace.len() == x * SANDBOX_HEIGHT + y + 1,
                    trace[0] == g0,
                    trace.last() == self.cells@,
                    forall|i: int| 0 <= i < x * SANDBOX_HEIGHT + y ==> #[trigger] move_step(trace[i], trace[i + 1], i, c),
                decreases SANDBOX_HEIGHT - y,
            {
                let ghost before = self.cells@;
                proof { lemma_coords(x as int, y as int); }
                if let Some(particle) = self.get(x, y) {
                    if particle.last_update != c {
                        let to = particle.move_particle(self, x, y);
                        let ghost mid = self.cells@;
                        let mut q = self.get(to.0, to.1).unwrap();
                        proof {
                            lemma_coords(to.0 as int, to.1 as int);
                            assert(cell_ok(mid[to.0 * SANDBOX_HEIGHT + to.1]));
                        }
                        q.last_update = c;
                        self.set(to.0, to.1, Some(q));
                        proof {
                            assert(q == stamped(at(mid, to.0 as int, to.1 as int).unwrap(), c));
                            assert(move_ok(particle, before, mid, x as int, y as int, (to.0 as int, to.1 as int)));
                        }
                    }
                }
                proof {
                    let k = x * SANDBOX_HEIGHT + y;
                    assert(move_step(before, self.cells@, k, c));
                    let old_trace = trace;
                    trace = trace.push(self.cells@);
                    assert forall|i: int| 0 <= i < k + 1 implies #[trigger] move_step(trace[i], trace[i + 1], i, c) by {
                        if i < k {
                            assert(trace[i] == old_trace[i]);
                            assert(trace[i + 1] == old_trace[i + 1]);
                        }
                    }
                }
                y = y + 1;
            }
            x = x + 1;
        }
    }

    /// The update pass: the update counter advances, then every particle not
    /// stamped with it, in storage order, follows its update rule (see
    /// `update_pass`).
    pub fn state_update(&mut self)
        requires
            old(self).wf(),
        ensures
            final(self).wf(),
            final(self).update_counter == next_counter(old(self).update_counter),
            update_pass(old(self).cells@, final(self).cells@, final(self).update_counter),
            final(self).last_cells == old(self).last_cells,
            final(self).background == old(self).background,
    {
        self.update_counter = advance_counter(self.update_counter);
        let c = self.update_counter;
        let ghost g0 = self.cells@;
        let ghost mut trace: Seq<Seq<Option<Particle>>> = seq![self.cells@];
        let mut x: usize = 0;
        while x < SANDBOX_WIDTH
            invariant
                x <= SANDBOX_WIDTH,
                self.wf(),
                c == self.update_counter,
                c == next_counter(old(self).update_counter),
                g0 == old(self).cells@,
                self.last_cells == old(self).last_cells,
                self.background == old(self).background,
                trace.len() == x * SANDBOX_HEIGHT + 1,
                trace[0] == g0,
                trace.last() == self.cells@,
                forall|i: int| 0 <= i < x * SANDBOX_HEIGHT ==> #[trigger] update_step(trace[i], trace[i + 1], i, c),
            decreases SANDBOX_WIDTH - x,
        {
            let mut y: usize = 0;
            while y < SANDBOX_HEIGHT
                invariant
                    x < SANDBOX_WIDTH,
                    y <= SANDBOX_HEIGHT,
                    self.wf(),
                    c == self.update_counter,
                    c == next_counter(old(self).update_counter),
                    g0 == old(self).cells@,
                    self.last_cells == old(self).last_cells,
                    self.background == old(self).background,
                    trace.len() == x * SANDBOX_HEIGHT + y + 1,
                    trace[0] == g0,
                    trace.last() == self.cells@,
                    forall|i: int| 0 <= i < x * SANDBOX_HEIGHT + y ==> #[trigger] update_step(trace[i], trace[i + 1], i, c),
                decreases SANDBOX_HEIGHT - y,
            {
                let ghost before = self.cells@;
                proof { lemma_coords(x as int, y as int); }
                if let Some(particle) = self.get(x, y) {
                    if particle.last_update != c {
                        particle.update(self, x, y);
                    }
                }
                proof {
                    let k = x * SANDBOX_HEIGHT + y;
                    assert(update_step(before, self.cells@, k, c));
                    let old_trace = trace;
                    trace = trace.push(self.cells@);
                    assert forall|i: int| 0 <= i < k + 1 implies #[trigger] update_step(trace[i], trace[i + 1], i, c) by {
                        if i < k {
                            assert(trace[i] == old_trace[i]);
                            assert(trace[i + 1] == old_trace[i + 1]);
                        }
                    }
                }
                y = y + 1;
            }
            x = x + 1;
        }
    }

    /// One simulation step: the movement pass, the temperature pass, then the
    /// update pass; the counter advances twice.
    pub fn update(&mut self)
        requires
            old(self).wf(),
        ensures
            final(self).wf(),
            final(self).update_counter == next_counter(next_counter(old(self).update_counter)),
            exists|moved: Seq<Option<Particle>>|
                move_pass(old(self).cells@, moved, next_counter(old(self).update_counter))
                && #[trigger] update_pass(exchanged(moved, n_cells()), final(self).cells@, final(self).update_counter),
            final(self).background == old(self).background,
    {
        self.move_update();
        let ghost moved = self.cells@;
        self.temperature_update();
        self.state_update();
        assert(update_pass(exchanged(moved, n_cells()), self.cells@, self.update_counter));
    }
}

/// The census determines the number of cells.
proof fn lemma_kinds_len(a: Seq<Option<Particle>>, b: Seq<Option<Particle>>)
    requires
        census(a) == census(b),
    ensures
        a.len() == b.len(),
{
    broadcast use vstd::seq_lib::group_to_multiset_ensures;
    assert(census(a).len() == a.map_values(|c: Option<Particle>| kind_heat_of(c)).len());
    assert(census(b).len() == b.map_values(|c: Option<Particle>| kind_heat_of(c)).len());
}

/// One step of the movement pass keeps the census.
proof fn lemma_move_step_kinds(g: Seq<Option<Particle>>, new: Seq<Option<Particle>>, i: int, c: u8)
    requires
        g.len() == n_cells(),
        0 <= i < n_cells(),
        move_step(g, new, i, c),
    ensures
        census(new) == census(g),
        new.len() == n_cells(),
{
    lemma_index_coords(i);
    let x = i / (SANDBOX_HEIGHT as int);
    let y = i % (SANDBOX_HEIGHT as int);
    match at(g, x, y) {
        Some(p) => {
            if p.last_update != c {
                let (mid, to) = choose|mid: Seq<Option<Particle>>, to: (int, int)|
                    #[trigger] move_ok(p, g, mid, x, y, to) && in_grid(to.0, to.1) && at(mid, to.0, to.1) is Some
                    && new == put(mid, to.0, to.1, Some(stamped(at(mid, to.0, to.1).unwrap(), c)));
                lemma_move_keeps_census(p, g, mid, x, y, to);
                lemma_kinds_len(mid, g);
                lemma_put_same_kind(mid, to.0, to.1, Some(stamped(at(mid, to.0, to.1).unwrap(), c)));
            }
        },
        None => {},
    }
    lemma_kinds_len(new, g);
}

/// Movement never creates, destroys or transmutes particles, and changes no
/// temperature: after a whole movement pass the sandbox holds exactly as
/// many particles of each kind (and as many empty cells) as before, and as
/// many of each kind at each temperature.
pub proof fn lemma_move_pass_keeps_kinds(g: Seq<Option<Particle>>, new: Seq<Option<Particle>>, c: u8)
    requires
        g.len() == n_cells(),
        move_pass(g, new, c),
    ensures
        kinds(new) == kinds(g),
        census(new) == census(g),
{
    let trace = choose|trace: Seq<Seq<Option<Particle>>>|
        trace.len() == n_cells() + 1 && trace[0] == g && trace[n_cells()] == new
        && forall|i: int| 0 <= i < n_cells() ==> #[trigger] move_step(trace[i], trace[i + 1], i, c);
    lemma_trace_kinds(trace, g, c, n_cells());
    lemma_census_kinds(new, g);
}

/// The first `i` steps of a movement pass keep the census.
proof fn lemma_trace_kinds(trace: Seq<Seq<Option<Particle>>>, g: Seq<Option<Particle>>, c: u8, i: int)
    requires
        g.len() == n_cells(),
        0 <= i <= n_cells(),
        trace.len() == n_cells() + 1,
        trace[0] == g,
        forall|j: int| 0 <= j < n_cells() ==> #[trigger] move_step(trace[j], trace[j + 1], j, c),
    ensures
        census(trace[i]) == census(g),
        trace[i].len() == n_cells(),
    decreases i,
{
    if i > 0 {
        lemma_trace_kinds(trace, g, c, i - 1);
        let j = i - 1;
        assert(move_step(trace[j], trace[j + 1], j, c));
        assert(j + 1 == i);
        lemma_move_step_kinds(trace[j], trace[j + 1], j, c);
    }
}

/// `b` is `a` after one simulation step (what `Sandbox::update` ensures).
pub open spec fn stepped_once(a: Sandbox, b: Sandbox) -> bool {
    &&& b.wf()
    &&& b.update_counter == next_counter(next_counter(a.update_counter))
    &&& exists|moved: Seq<Option<Particle>>|
            move_pass(a.cells@, moved, next_counter(a.update_counter))
            && #[trigger] update_pass(exchanged(moved, n_cells()), b.cells@, b.update_counter)
    &&& b.background == a.background
}

/// `b` is `a` after `n` simulation steps.
pub open spec fn advanced(a: Sandbox, b: Sandbox, n: nat) -> bool {
    exists|trace: Seq<Sandbox>|
        trace.len() == n + 1 && trace[0] == a && trace[n as int] == b
        && forall|i: int| 0 <= i < n ==> #[trigger] stepped_once(trace[i], trace[i + 1])
}

} // verus!
