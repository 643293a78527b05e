//! Particle kinds, the particle record, and the per-kind property tables.

use vstd::prelude::*;
use crate::rng::{gen_range_i8, gen_range_i32, gen_ratio};

verus! {

/// The eighteen kinds of particle.
#[derive(Clone, Copy, PartialEq, Eq, Structural, Debug)]
pub enum ParticleType {
    Sand,
    Water,
    Acid,
    Iridium,
    Replicator,
    Plant,
    Cryotheum,
    Unstable,
    Electricity,
    Glass,
    Life,
    SuperLife,
    Blood,
    Smoke,
    Fire,
    Mirror,
    Steam,
    Glitch,
}

/// One particle of the sandbox.
///
/// `extra_data1` and `extra_data2` are per-kind state (a growth budget for
/// Plant, a fall counter and a death flag for Life, a timer for Cryotheum and
/// Unstable, a frame counter for Mirror, ...). `last_update` is the value of
/// the sandbox's update counter when the particle was last moved or updated.
#[derive(Clone, Copy, PartialEq, Eq, Structural, Debug)]
pub struct Particle {
    pub ptype: ParticleType,
    pub temperature: i16,
    pub extra_data1: i8,
    pub extra_data2: i8,
    pub color_offset: i8,
    pub last_update: u8,
}

/// The position of a kind in declaration order (0 for Sand .. 17 for Glitch).
pub open spec fn kind_index(t: ParticleType) -> int {
    match t {
        ParticleType::Sand => 0,
        ParticleType::Water => 1,
        ParticleType::Acid => 2,
        ParticleType::Iridium => 3,
        ParticleType::Replicator => 4,
        ParticleType::Plant => 5,
        ParticleType::Cryotheum => 6,
        ParticleType::Unstable => 7,
        ParticleType::Electricity => 8,
        ParticleType::Glass => 9,
        ParticleType::Life => 10,
        ParticleType::SuperLife => 11,
        ParticleType::Blood => 12,
        ParticleType::Smoke => 13,
        ParticleType::Fire => 14,
        ParticleType::Mirror => 15,
        ParticleType::Steam => 16,
        ParticleType::Glitch => 17,
    }
}

impl ParticleType {
    /// The kind at position `index` of the declaration order.
    pub fn from_index(index: i32) -> (t: ParticleType)
        requires
            0 <= index < 18,
        ensures
            kind_index(t) == index,
    {
        match index {
            0 => ParticleType::Sand,
            1 => ParticleType::Water,
            2 => ParticleType::Acid,
            3 => ParticleType::Iridium,
            4 => ParticleType::Replicator,
            5 => ParticleType::Plant,
            6 => ParticleType::Cryotheum,
            7 => ParticleType::Unstable,
            8 => ParticleType::Electricity,
            9 => ParticleType::Glass,
            10 => ParticleType::Life,
            11 => ParticleType::SuperLife,
            12 => ParticleType::Blood,
            13 => ParticleType::Smoke,
            14 => ParticleType::Fire,
            15 => ParticleType::Mirror,
            16 => ParticleType::Steam,
            _ => ParticleType::Glitch,
        }
    }

    /// A kind drawn uniformly from all eighteen: the index is drawn with
    /// `gen_range(0..18)` and mapped by declaration order.
    pub fn random(rng: &mut rand_pcg::Lcg128Xsl64) -> (t: ParticleType)
        ensures
            0 <= kind_index(t) < 18,
    {
        let i = gen_range_i32(rng, 0, 18);
        ParticleType::from_index(i)
    }
}

/// Declaration order numbers the kinds without repetition: two kinds with the
/// same index are the same kind, and every index below 18 names a kind.
pub proof fn lemma_kind_index_bijective(a: ParticleType, b: ParticleType)
    ensures
        0 <= kind_index(a) < 18,
        kind_index(a) == kind_index(b) <==> a == b,
{
}

/// Higher thermal conductivity means slower temperature transfer.
pub open spec fn conductivity_of(t: ParticleType) -> i16 {
    match t {
        ParticleType::Sand => 3,
        ParticleType::Water => 5,
        ParticleType::Acid => 4,
        ParticleType::Iridium => 8,
        ParticleType::Replicator => 3,
        ParticleType::Plant => 3,
        ParticleType::Cryotheum => 2,
        ParticleType::Unstable => 2,
        ParticleType::Electricity => 2,
        ParticleType::Glass => 2,
        ParticleType::Life => 3,
        ParticleType::SuperLife => 3,
        ParticleType::Blood => 2,
        ParticleType::Smoke => 6,
        ParticleType::Fire => 2,
        ParticleType::Mirror => 7,
        ParticleType::Steam => 6,
        ParticleType::Glitch => 2,
    }
}

/// The kinds that are drawn with a glow.
pub open spec fn glowing_kind(t: ParticleType) -> bool {
    ||| t == ParticleType::Acid
    ||| t == ParticleType::Electricity
    ||| t == ParticleType::Smoke
    ||| t == ParticleType::Fire
    ||| t == ParticleType::Glitch
}

/// The kinds that Acid dissolves.
pub open spec fn acid_dissolves(t: ParticleType) -> bool {
    !(t == ParticleType::Acid || t == ParticleType::Iridium || t == ParticleType::Replicator
        || t == ParticleType::Glass || t == ParticleType::Smoke || t == ParticleType::Mirror)
}

/// The kinds that a Cryotheum cold snap chills.
pub open spec fn coldsnap_affects(t: ParticleType) -> bool {
    !(t == ParticleType::Cryotheum || t == ParticleType::Smoke)
}

/// The kinds that an Unstable explosion turns into Smoke.
pub open spec fn unstable_vaporizes(t: ParticleType) -> bool {
    !(t == ParticleType::Iridium || t == ParticleType::Replicator || t == ParticleType::Smoke
        || t == ParticleType::Fire)
}

/// The kinds that Fire spreads to.
pub open spec fn flammable_kind(t: ParticleType) -> bool {
    ||| t == ParticleType::Plant
    ||| t == ParticleType::Cryotheum
    ||| t == ParticleType::Life
    ||| t == ParticleType::Glitch
}

/// The shimmer (noise) amplitude of a particle.
pub open spec fn shimmer_of(p: Particle) -> i16 {
    match p.ptype {
        ParticleType::Sand => 10,
        ParticleType::Water => 30,
        ParticleType::Acid => 50,
        ParticleType::Iridium => 0,
        ParticleType::Replicator => 10,
        ParticleType::Plant => if p.extra_data1 < 2 { 10 } else { 5 },
        ParticleType::Cryotheum => 10,
        // a fifth of the temperature, rounded to nearest (no tie can occur)
        ParticleType::Unstable => if p.temperature > 0 { ((p.temperature + 2) / 5) as i16 } else { 0 },
        ParticleType::Electricity => 200,
        ParticleType::Glass => 50,
        ParticleType::Life => 0,
        ParticleType::SuperLife => 15,
        ParticleType::Blood => 20,
        ParticleType::Smoke => 10,
        ParticleType::Fire => 50,
        ParticleType::Mirror => 20,
        ParticleType::Steam => 10,
        ParticleType::Glitch => 30,
    }
}

/// The temperature a new particle of kind `t` starts with.
pub open spec fn initial_temperature(t: ParticleType) -> int {
    match t {
        ParticleType::Water => -10,
        ParticleType::Cryotheum => -60,
        ParticleType::Electricity => 300,
        ParticleType::Fire => 130,
        ParticleType::Steam => 100,
        _ => 0,
    }
}

/// The range `extra_data1` of a new particle of kind `t` is drawn from:
/// a growth budget of 1..=17 for Plant, a lifetime of 70..=109 for Smoke,
/// a hue of 0..=59 for Fire, and 0 for every other kind.
pub open spec fn initial_extra1_ok(t: ParticleType, e: i8) -> bool {
    match t {
        ParticleType::Plant => 1 <= e <= 17,
        ParticleType::Smoke => 70 <= e <= 109,
        ParticleType::Fire => 0 <= e <= 59,
        _ => e == 0,
    }
}

/// `p` is what `Particle::new(t, ..)` can return: the kind's starting
/// temperature and state, a colour offset in -10..=10, never updated.
pub open spec fn fresh_particle(p: Particle, t: ParticleType) -> bool {
    &&& p.ptype == t
    &&& p.temperature == initial_temperature(t)
    &&& initial_extra1_ok(t, p.extra_data1)
    &&& p.extra_data2 == (if t == ParticleType::Smoke { 90i8 } else { 0i8 })
    &&& -10 <= p.color_offset <= 10
    &&& p.last_update == 0
}

/// The colour of a Glitch particle: usually grey, sometimes pink.
pub open spec fn glitch_color_ok(c: (u8, u8, u8)) -> bool {
    c == (81u8, 80u8, 66u8) || c == (218u8, 101u8, 126u8)
}

/// One channel of the Mirror blend: from `a` toward `b` by `s`/59, floored
/// and clamped to a byte.
pub open spec fn mirror_blend(a: int, b: int, s: int) -> int {
    let v = (59 * a + (b - a) * s) / 59;
    if v < 0 { 0 } else if v > 255 { 255 } else { v }
}

/// The Mirror colour, which cycles green (78, 216, 131) to pink
/// (216, 78, 163) over counter values 0..=59 and back over 60..=119.
///
/// The blend is defined as a double-precision lerp truncated to a byte; for
/// every counter value but -118 and -59 (values that the Mirror rule never
/// produces) that equals the exact blend floored, and at those two the
/// double-precision blue channel is one lower.
pub open spec fn mirror_color(e: i8) -> (u8, u8, u8) {
    let (a, b, s) = if e < 60 {
        ((78int, 216int, 131int), (216int, 78int, 163int), e as int)
    } else {
        ((216int, 78int, 163int), (78int, 216int, 131int), e - 60)
    };
    let blue = mirror_blend(a.2, b.2, s);
    let blue = if e == -118 || e == -59 { blue - 1 } else { blue };
    (mirror_blend(a.0, b.0, s) as u8, mirror_blend(a.1, b.1, s) as u8, blue as u8)
}

/// The base colour of every particle but Glitch, whose colour is drawn.
pub open spec fn fixed_color(p: Particle) -> (u8, u8, u8) {
    match p.ptype {
        ParticleType::Sand => if p.extra_data1 == 0 { (196, 192, 135) } else { (166, 162, 105) },
        ParticleType::Water => (26, 91, 175),
        ParticleType::Acid => (138, 209, 0),
        ParticleType::Iridium => (100, 100, 100),
        ParticleType::Replicator => if p.extra_data1 == 0 { (68, 11, 67) } else { (88, 31, 107) },
        ParticleType::Plant => if p.extra_data1 < 2 { (6, 89, 9) } else { (20, 61, 21) },
        ParticleType::Cryotheum => (12, 191, 201),
        ParticleType::Unstable => (84, 68, 45),
        ParticleType::Electricity => (247, 244, 49),
        ParticleType::Glass => (159, 198, 197),
        ParticleType::Life => if p.extra_data2 == 0 { (135, 12, 211) } else { (90, 84, 84) },
        ParticleType::SuperLife => if p.extra_data2 == 0 { (188, 20, 183) } else { (90, 84, 84) },
        ParticleType::Blood => (112, 4, 17),
        ParticleType::Smoke => (5, 5, 5),
        ParticleType::Fire => (237, 86, 4),
        ParticleType::Mirror => mirror_color(p.extra_data1),
        ParticleType::Steam => (40, 140, 140),
        ParticleType::Glitch => (81, 80, 66),
    }
}

/// One channel of the Mirror blend, see `mirror_blend`.
fn mirror_channel(a: u8, b: u8, s: i8) -> (c: u8)
    ensures
        c == mirror_blend(a as int, b as int, s as int),
{
    let d: i32 = (b as i32) - (a as i32);
    assert(-32640 <= d * s <= 32640) by (nonlinear_arith)
        requires -255 <= d <= 255, -128 <= s <= 127;
    let n: i32 = 59 * (a as i32) + d * (s as i32);
    if n < 0 {
        assert((59 * a + (b - a) * s) / 59 < 0) by (nonlinear_arith)
            requires n == 59 * a + (b - a) * s, n < 0;
        0
    } else {
        let q: u32 = (n as u32) / 59;
        if q > 255 {
            255
        } else {
            q as u8
        }
    }
}

impl Particle {
    /// A new particle of kind `ptype`: its starting temperature and state,
    /// with the Plant growth budget, the Smoke lifetime and the Fire hue drawn
    /// from `rng` (in that order, only for those kinds), then the colour
    /// offset drawn from -10..=10.
    pub fn new(ptype: ParticleType, rng: &mut rand_pcg::Lcg128Xsl64) -> (p: Particle)
        ensures
            fresh_particle(p, ptype),
    {
        let temperature: i16 = match ptype {
            ParticleType::Water => -10,
            ParticleType::Cryotheum => -60,
            ParticleType::Electricity => 300,
            ParticleType::Fire => 130,
            ParticleType::Steam => 100,
            _ => 0,
        };
        let extra_data1: i8 = match ptype {
            ParticleType::Plant => gen_range_i8(rng, 1, 18),
            ParticleType::Smoke => 90 + gen_range_i8(rng, -20, 20),
            ParticleType::Fire => gen_range_i8(rng, 0, 60),
            _ => 0,
        };
        let extra_data2: i8 = if ptype == ParticleType::Smoke { 90 } else { 0 };
        let color_offset = gen_range_i8(rng, -10, 11);
        Particle { ptype, temperature, extra_data1, extra_data2, color_offset, last_update: 0 }
    }

    /// The base colour of the particle. Only a Glitch particle draws from
    /// `rng`: grey with probability 19/20, else pink.
    pub fn base_color(&self, rng: &mut rand_pcg::Lcg128Xsl64) -> (c: (u8, u8, u8))
        ensures
            self.ptype != ParticleType::Glitch ==> c == fixed_color(*self),
            self.ptype != ParticleType::Glitch ==> *final(rng) == *old(rng),
            self.ptype == ParticleType::Glitch ==> glitch_color_ok(c),
    {
        match self.ptype {
            ParticleType::Sand => if self.extra_data1 == 0 { (196, 192, 135) } else { (166, 162, 105) },
            ParticleType::Water => (26, 91, 175),
            ParticleType::Acid => (138, 209, 0),
            ParticleType::Iridium => (100, 100, 100),
            ParticleType::Replicator => if self.extra_data1 == 0 { (68, 11, 67) } else { (88, 31, 107) },
            ParticleType::Plant => if self.extra_data1 < 2 { (6, 89, 9) } else { (20, 61, 21) },
            ParticleType::Cryotheum => (12, 191, 201),
            ParticleType::Unstable => (84, 68, 45),
            ParticleType::Electricity => (247, 244, 49),
            ParticleType::Glass => (159, 198, 197),
            ParticleType::Life => if self.extra_data2 == 0 { (135, 12, 211) } else { (90, 84, 84) },
            ParticleType::SuperLife => if self.extra_data2 == 0 { (188, 20, 183) } else { (90, 84, 84) },
            ParticleType::Blood => (112, 4, 17),
            ParticleType::Smoke => (5, 5, 5),
            ParticleType::Fire => (237, 86, 4),
            ParticleType::Mirror => {
                let e = self.extra_data1;
                let (a, b, s): ((u8, u8, u8), (u8, u8, u8), i8) = if e < 60 {
                    ((78, 216, 131), (216, 78, 163), e)
                } else {
                    ((216, 78, 163), (78, 216, 131), e - 60)
                };
                let r = mirror_channel(a.0, b.0, s);
                let g = mirror_channel(a.1, b.1, s);
                let mut blue = mirror_channel(a.2, b.2, s);
                if e == -118 || e == -59 {
                    if e == -118 {
                        assert((59 * 131 + (163 - 131) * -118) / 59 == 67) by (nonlinear_arith);
                    } else {
                        assert((59 * 131 + (163 - 131) * -59) / 59 == 99) by (nonlinear_arith);
                    }
                    blue = blue - 1;
                }
                (r, g, blue)
            },
            ParticleType::Steam => (40, 140, 140),
            ParticleType::Glitch => {
                if gen_ratio(rng, 19, 20) {
                    (81, 80, 66)
                } else {
                    (218, 101, 126)
                }
            },
        }
    }

    /// Thermal conductivity of this particle's kind; always at least 2.
    pub fn thermal_conductivity(&self) -> (tc: i16)
        ensures
            tc == conductivity_of(self.ptype),
            2 <= tc <= 8,
    {
        match self.ptype {
            ParticleType::Sand => 3,
            ParticleType::Water => 5,
            ParticleType::Acid => 4,
            ParticleType::Iridium => 8,
            ParticleType::Replicator => 3,
            ParticleType::Plant => 3,
            ParticleType::Cryotheum => 2,
            ParticleType::Unstable => 2,
            ParticleType::Electricity => 2,
            ParticleType::Glass => 2,
            ParticleType::Life => 3,
            ParticleType::SuperLife => 3,
            ParticleType::Blood => 2,
            ParticleType::Smoke => 6,
            ParticleType::Fire => 2,
            ParticleType::Mirror => 7,
            ParticleType::Steam => 6,
            ParticleType::Glitch => 2,
        }
    }

    /// How strongly this particle shimmers with the background noise.
    pub fn shimmer_intensity(&self) -> (s: i16)
        ensures
            s == shimmer_of(*self),
            0 <= s,
    {
        match self.ptype {
            ParticleType::Sand => 10,
            ParticleType::Water => 30,
            ParticleType::Acid => 50,
            ParticleType::Iridium => 0,
            ParticleType::Replicator => 10,
            ParticleType::Plant => {
                if self.extra_data1 < 2 {
                    10
                } else {
                    5
                }
            },
            ParticleType::Cryotheum => 10,
            ParticleType::Unstable => {
                if self.temperature > 0 {
                    let t: i32 = self.temperature as i32;
                    ((t + 2) / 5) as i16
                } else {
                    0
                }
            },
            ParticleType::Electricity => 200,
            ParticleType::Glass => 50,
            ParticleType::Life => 0,
            ParticleType::SuperLife => 15,
            ParticleType::Blood => 20,
            ParticleType::Smoke => 10,
            ParticleType::Fire => 50,
            ParticleType::Mirror => 20,
            ParticleType::Steam => 10,
            ParticleType::Glitch => 30,
        }
    }

    /// Whether the particle is drawn with a glow.
    pub fn is_glowing(&self) -> (b: bool)
        ensures
            b == glowing_kind(self.ptype),
    {
        match self.ptype {
            ParticleType::Acid | ParticleType::Electricity | ParticleType::Smoke
            | ParticleType::Fire | ParticleType::Glitch => true,
            _ => false,
        }
    }

    /// Whether Acid dissolves this particle.
    pub fn dissolved_by_acid(&self) -> (b: bool)
        ensures
            b == acid_dissolves(self.ptype),
    {
        match self.ptype {
            ParticleType::Acid | ParticleType::Iridium | ParticleType::Replicator
            | ParticleType::Glass | ParticleType::Smoke | ParticleType::Mirror => false,
            _ => true,
        }
    }

    /// Whether a Cryotheum cold snap chills this particle.
    pub fn affected_by_cryotheum_coldsnap(&self) -> (b: bool)
        ensures
            b == coldsnap_affects(self.ptype),
    {
        match self.ptype {
            ParticleType::Cryotheum | ParticleType::Smoke => false,
            _ => true,
        }
    }

    /// Whether an Unstable explosion turns this particle into Smoke.
    pub fn can_be_vaporized_by_unstable(&self) -> (b: bool)
        ensures
            b == unstable_vaporizes(self.ptype),
    {
        match self.ptype {
            ParticleType::Iridium | ParticleType::Replicator | ParticleType::Smoke
            | ParticleType::Fire => false,
            _ => true,
        }
    }

    /// Whether Fire spreads to this particle.
    pub fn is_flammable(&self) -> (b: bool)
        ensures
            b == flammable_kind(self.ptype),
    {
        match self.ptype {
            ParticleType::Plant | ParticleType::Cryotheum | ParticleType::Life
            | ParticleType::Glitch => true,
            _ => false,
        }
    }
}

} // verus!
