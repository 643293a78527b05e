//! Drawing the sandbox into an RGBA frame.

use vstd::prelude::*;
use crate::particle::{Particle, ParticleType, fixed_color, glitch_color_ok, glowing_kind};
use crate::sandbox::{Sandbox, SANDBOX_HEIGHT, SANDBOX_WIDTH, at, in_grid, n_cells, pixel_index, div_trunc, clamped, clamp};

verus! {

/// Whether the Water particle at `(x, y)` shows foam: three empty cells above
/// it and Water below it, away from the top and bottom rows.
pub open spec fn foamy(g: Seq<Option<Particle>>, x: int, y: int) -> bool {
    &&& at(g, x, y) matches Some(p) && p.ptype == ParticleType::Water
    &&& 2 < y < SANDBOX_HEIGHT - 1
    &&& at(g, x, y - 1) is None
    &&& at(g, x, y - 2) is None
    &&& at(g, x, y - 3) is None
    &&& at(g, x, y + 1) matches Some(b) && b.ptype == ParticleType::Water
}

/// The tint added to a particle's base colour, as (red, green, blue): warm
/// particles redden by their temperature, cold ones turn blue (and a thirtieth
/// as much green) by minus their temperature, except Electricity; Fire gains
/// its hue (`extra_data1`) in green and darkens by a third of how long it has
/// stood still (`extra_data2`); foamy Water lightens by 35. Sums wrap at the
/// bounds of `i16`.
pub open spec fn tint(p: Particle, foam: bool) -> (i16, i16, i16) {
    let (r, g, b) = if p.ptype != ParticleType::Electricity {
        if p.temperature < 0 {
            let cold = 0i16.wrapping_sub(p.temperature);
            (0i16, div_trunc(cold as int, 30) as i16, cold)
        } else {
            (p.temperature, 0i16, 0i16)
        }
    } else {
        (0i16, 0i16, 0i16)
    };
    let (r, g, b) = if p.ptype == ParticleType::Fire {
        let shade = div_trunc(p.extra_data2 as int, 3) as i16;
        (r.wrapping_sub(shade), g.wrapping_add(p.extra_data1 as i16).wrapping_sub(shade), b.wrapping_sub(shade))
    } else {
        (r, g, b)
    };
    if foam { (r.wrapping_add(35), g.wrapping_add(35), b.wrapping_add(35)) } else { (r, g, b) }
}

/// One colour channel: base plus tint plus noise shimmer plus the particle's
/// colour offset (wrapping), clamped to a byte.
pub open spec fn channel(base: u8, t: i16, m: i16, offset: i8) -> u8 {
    clamped((base as i16).wrapping_add(t).wrapping_add(m).wrapping_add(offset as i16) as int, 0, 255) as u8
}

/// The base colour a particle may be drawn with.
pub open spec fn base_ok(p: Particle, base: (u8, u8, u8)) -> bool {
    if p.ptype == ParticleType::Glitch { glitch_color_ok(base) } else { base == fixed_color(p) }
}

/// Pixel `(x, y)` of `frame` (RGBA, row-major) shows cell `(x, y)` of `g`: the
/// particle in its base colour (one that `base_ok` allows), tinted and
/// shimmering by `shimmer[pixel]`, opaque (alpha 255) unless it glows
/// (alpha 0); an empty cell shows the background, opaque.
pub open spec fn pixel_shown(g: Seq<Option<Particle>>, bg: Seq<u8>, shimmer: Seq<i16>, frame: Seq<u8>, x: int, y: int) -> bool {
    let i = pixel_index(x, y);
    match at(g, x, y) {
        Some(p) => exists|base: (u8, u8, u8)| #[trigger] base_ok(p, base) && {
            let t = tint(p, foamy(g, x, y));
            &&& frame[4 * i] == channel(base.0, t.0, shimmer[i], p.color_offset)
            &&& frame[4 * i + 1] == channel(base.1, t.1, shimmer[i], p.color_offset)
            &&& frame[4 * i + 2] == channel(base.2, t.2, shimmer[i], p.color_offset)
            &&& frame[4 * i + 3] == (if glowing_kind(p.ptype) { 0u8 } else { 255u8 })
        },
        None => {
            &&& frame[4 * i] == bg[3 * i]
            &&& frame[4 * i + 1] == bg[3 * i + 1]
            &&& frame[4 * i + 2] == bg[3 * i + 2]
            &&& frame[4 * i + 3] == 255
        },
    }
}

/// Whether cell `(x, y)` of `g` holds a glowing particle.
pub open spec fn glows_at(g: Seq<Option<Particle>>, x: int, y: int) -> bool {
    at(g, x, y) matches Some(p) && glowing_kind(p.ptype)
}

/// Whether any particle of `g` glows.
pub open spec fn any_glow(g: Seq<Option<Particle>>) -> bool {
    exists|x: int, y: int| in_grid(x, y) && #[trigger] glows_at(g, x, y)
}

/// `v` limited to a byte.
pub open spec fn to_byte(v: int) -> int {
    if v < 0 { 0 } else if v > 255 { 255 } else { v }
}

/// Wrapping additions of `i16` values give the exact sum whenever that sum
/// fits in an `i16`.
proof fn lemma_wrapping_sum(a: i16, b: i16, c: i16, d: i16)
    requires
        i16::MIN <= a + b + c + d <= i16::MAX,
    ensures
        a.wrapping_add(b).wrapping_add(c).wrapping_add(d) as int == a + b + c + d,
{
    let s1 = a.wrapping_add(b);
    let s2 = s1.wrapping_add(c);
    let s3 = s2.wrapping_add(d);
    assert(s1 == a + b || s1 == a + b - 65536 || s1 == a + b + 65536);
    assert(s2 == s1 + c || s2 == s1 + c - 65536 || s2 == s1 + c + 65536);
    assert(s3 == s2 + d || s3 == s2 + d - 65536 || s3 == s2 + d + 65536);
}

/// How a particle's temperature tints its pixel. For any particle but
/// Electricity, Fire and Glitch (whose colours are drawn or hued
/// differently), with `m` the shimmer of its pixel, `o` its colour offset
/// and `(r, g, b)` its base colour, when no sum leaves the range of `i16`
/// and it shows no foam:
/// - at 0 degrees or warmer, the red channel is `r + t + m + o` clamped to
///   a byte, and green and blue are `g + m + o` and `b + m + o` clamped;
/// - below 0 degrees, blue is `b - t + m + o`, green `g + (-t) / 30 + m + o`
///   and red `r + m + o`, each clamped to a byte.
pub proof fn lemma_temperature_tint(g: Seq<Option<Particle>>, bg: Seq<u8>, shimmer: Seq<i16>, frame: Seq<u8>, x: int, y: int, p: Particle)
    requires
        g.len() == n_cells(),
        in_grid(x, y),
        at(g, x, y) == Some(p),
        p.ptype != ParticleType::Electricity,
        p.ptype != ParticleType::Fire,
        p.ptype != ParticleType::Glitch,
        !foamy(g, x, y),
        p.temperature > i16::MIN,
        pixel_shown(g, bg, shimmer, frame, x, y),
        ({
            let (r, gr, b) = fixed_color(p);
            let m = shimmer[pixel_index(x, y)] as int;
            let o = p.color_offset as int;
            let t = p.temperature as int;
            let cold = if t < 0 { -t } else { 0 };
            let warm = if t >= 0 { t } else { 0 };
            &&& i16::MIN <= r + warm + m + o <= i16::MAX
            &&& i16::MIN <= gr + cold / 30 + m + o <= i16::MAX
            &&& i16::MIN <= b + cold + m + o <= i16::MAX
        }),
    ensures
        ({
            let (r, gr, b) = fixed_color(p);
            let i = pixel_index(x, y);
            let m = shimmer[i] as int;
            let o = p.color_offset as int;
            let t = p.temperature as int;
            if t >= 0 {
                &&& frame[4 * i] == to_byte(r + t + m + o)
                &&& frame[4 * i + 1] == to_byte(gr + m + o)
                &&& frame[4 * i + 2] == to_byte(b + m + o)
            } else {
                &&& frame[4 * i] == to_byte(r + m + o)
                &&& frame[4 * i + 1] == to_byte(gr + (-t) / 30 + m + o)
                &&& frame[4 * i + 2] == to_byte(b - t + m + o)
            }
        }),
{
    let i = pixel_index(x, y);
    let m = shimmer[i];
    let o = p.color_offset as i16;
    let base = choose|base: (u8, u8, u8)| #[trigger] base_ok(p, base) && {
        let t = tint(p, foamy(g, x, y));
        &&& frame[4 * i] == channel(base.0, t.0, m, p.color_offset)
        &&& frame[4 * i + 1] == channel(base.1, t.1, m, p.color_offset)
        &&& frame[4 * i + 2] == channel(base.2, t.2, m, p.color_offset)
        &&& frame[4 * i + 3] == (if glowing_kind(p.ptype) { 0u8 } else { 255u8 })
    };
    assert(base == fixed_color(p));
    let t = tint(p, false);
    if p.temperature >= 0 {
        assert(t == (p.temperature, 0i16, 0i16));
        lemma_wrapping_sum(base.0 as i16, p.temperature, m, o);
        lemma_wrapping_sum(base.1 as i16, 0i16, m, o);
        lemma_wrapping_sum(base.2 as i16, 0i16, m, o);
    } else {
        let cold = 0i16.wrapping_sub(p.temperature);
        assert(cold == -p.temperature);
        assert(div_trunc(cold as int, 30) == cold / 30);
        assert(t == (0i16, (cold / 30) as i16, cold));
        lemma_wrapping_sum(base.0 as i16, 0i16, m, o);
        lemma_wrapping_sum(base.1 as i16, (cold / 30) as i16, m, o);
        lemma_wrapping_sum(base.2 as i16, cold, m, o);
    }
}

/// Whether cell `(x, y)` of `g` holds a Glitch particle, the only kind whose
/// colour is drawn from the generator.
pub open spec fn glitch_at(g: Seq<Option<Particle>>, x: int, y: int) -> bool {
    at(g, x, y) matches Some(p) && p.ptype == ParticleType::Glitch
}

/// Whether any cell of `g` holds a Glitch particle.
pub open spec fn any_glitch(g: Seq<Option<Particle>>) -> bool {
    exists|x: int, y: int| in_grid(x, y) && #[trigger] glitch_at(g, x, y)
}

/// The four bytes of pixel `(x, y)` for the particle `particle` sitting
/// there (see `pixel_shown`).
fn particle_rgba(sb: &mut Sandbox, particle: Particle, x: usize, y: usize, m: i16) -> (c: (u8, u8, u8, u8))
    requires
        old(sb).sized(),
        in_grid(x as int, y as int),
        at(old(sb).cells@, x as int, y as int) == Some(particle),
    ensures
        exists|base: (u8, u8, u8)| #[trigger] base_ok(particle, base) && {
            let t = tint(particle, foamy(old(sb).cells@, x as int, y as int));
            c == (channel(base.0, t.0, m, particle.color_offset), channel(base.1, t.1, m, particle.color_offset),
                channel(base.2, t.2, m, particle.color_offset), if glowing_kind(particle.ptype) { 0u8 } else { 255u8 })
        },
        final(sb).cells == old(sb).cells,
        final(sb).last_cells == old(sb).last_cells,
        final(sb).background == old(sb).background,
        final(sb).update_counter == old(sb).update_counter,
        particle.ptype != ParticleType::Glitch ==> final(sb).rng == old(sb).rng,
{
    let ghost g = sb.cells@;
    let base_color = particle.base_color(&mut sb.rng);
    let mut r: i16 = 0;
    let mut b: i16 = 0;
    let mut gr: i16 = 0;
    if particle.ptype != ParticleType::Electricity {
        if particle.temperature < 0 {
            b = 0i16.wrapping_sub(particle.temperature);
            gr = b / 30;
        } else {
            r = particle.temperature;
        }
    }
    if particle.ptype == ParticleType::Fire {
        let shade = (particle.extra_data2 / 3) as i16;
        gr = gr.wrapping_add(particle.extra_data1 as i16);
        r = r.wrapping_sub(shade);
        gr = gr.wrapping_sub(shade);
        b = b.wrapping_sub(shade);
    }
    if particle.ptype == ParticleType::Water && y > 2 && y < SANDBOX_HEIGHT - 1 {
        let below_is_water = match sb.get(x, y + 1) {
            Some(below) => below.ptype == ParticleType::Water,
            None => false,
        };
        if sb.get(x, y - 1).is_none() && sb.get(x, y - 2).is_none() && sb.get(x, y - 3).is_none() && below_is_water {
            r = r.wrapping_add(35);
            gr = gr.wrapping_add(35);
            b = b.wrapping_add(35);
        }
    }
    let off = particle.color_offset as i16;
    let rr = (base_color.0 as i16).wrapping_add(r).wrapping_add(m).wrapping_add(off);
    let gg = (base_color.1 as i16).wrapping_add(gr).wrapping_add(m).wrapping_add(off);
    let bb = (base_color.2 as i16).wrapping_add(b).wrapping_add(m).wrapping_add(off);
    let alpha: u8 = if particle.is_glowing() { 0 } else { 255 };
    let c = (clamp(rr, 0, 255) as u8, clamp(gg, 0, 255) as u8, clamp(bb, 0, 255) as u8, alpha);
    proof {
        let t = tint(particle, foamy(g, x as int, y as int));
        assert(t == (r, gr, b));
        assert(base_ok(particle, base_color));
    }
    c
}

/// Draws pixel `(x, y)` (at `i == pixel_index(x, y)`) into `frame` and says
/// whether it shows a glowing particle.
fn draw_pixel(sb: &mut Sandbox, frame: &mut [u8], shimmer: &[i16], x: usize, y: usize, i: usize) -> (glow: bool)
    requires
        old(sb).sized(),
        in_grid(x as int, y as int),
        i == pixel_index(x as int, y as int),
        old(frame)@.len() >= 4 * n_cells(),
        shimmer@.len() == n_cells(),
    ensures
        final(frame)@.len() == old(frame)@.len(),
        pixel_shown(old(sb).cells@, old(sb).background@, shimmer@, final(frame)@, x as int, y as int),
        forall|j: int| 0 <= j < final(frame)@.len() && !(4 * i <= j < 4 * i + 4) ==> #[trigger] final(frame)@[j] == old(frame)@[j],
        glow == glows_at(old(sb).cells@, x as int, y as int),
        final(sb).cells == old(sb).cells,
        final(sb).last_cells == old(sb).last_cells,
        final(sb).background == old(sb).background,
        final(sb).update_counter == old(sb).update_counter,
        !glitch_at(old(sb).cells@, x as int, y as int) ==> final(sb).rng == old(sb).rng,
{
    let frame_i = i * 4;
    match sb.get(x, y) {
        Some(particle) => {
            let c = particle_rgba(sb, particle, x, y, shimmer[i]);
            frame[frame_i] = c.0;
            frame[frame_i + 1] = c.1;
            frame[frame_i + 2] = c.2;
            frame[frame_i + 3] = c.3;
            particle.is_glowing()
        },
        None => {
            let background_i = i * 3;
            frame[frame_i] = sb.background[background_i];
            frame[frame_i + 1] = sb.background[background_i + 1];
            frame[frame_i + 2] = sb.background[background_i + 2];
            frame[frame_i + 3] = 255;
            false
        },
    }
}

impl Sandbox {
    /// Draws the sandbox into the first `4 * n_cells()` bytes of `frame`
    /// (four bytes per cell, row by row), leaving any bytes after them alone,
    /// and says whether any particle glows. `shimmer` holds, per pixel, the
    /// brightness the background noise adds to a particle there. Only Glitch
    /// particles draw from the generator (for their colour).
    pub fn render(&mut self, frame: &mut [u8], shimmer: &[i16]) -> (has_glow: bool)
        requires
            old(self).sized(),
            old(frame)@.len() >= 4 * n_cells(),
            shimmer@.len() == n_cells(),
        ensures
            final(frame)@.len() == old(frame)@.len(),
            forall|j: int| 4 * n_cells() <= j < old(frame)@.len() ==> #[trigger] final(frame)@[j] == old(frame)@[j],
            !any_glitch(old(self).cells@) ==> final(self).rng == old(self).rng,
            forall|x: int, y: int| in_grid(x, y) ==>
                #[trigger] pixel_shown(old(self).cells@, old(self).background@, shimmer@, final(frame)@, x, y),
            has_glow == any_glow(old(self).cells@),
            final(self).cells == old(self).cells,
            final(self).last_cells == old(self).last_cells,
            final(self).background == old(self).background,
            final(self).update_counter == old(self).update_counter,
    {
        let ghost g = self.cells@;
        let mut has_glow = false;
        let mut i: usize = 0;
        let mut y: usize = 0;
        while y < SANDBOX_HEIGHT
            invariant
                y <= SANDBOX_HEIGHT,
                i == pixel_index(0, y as int),
                self.sized(),
                g == old(self).cells@,
                self.cells == old(self).cells,
                self.last_cells == old(self).last_cells,
                self.background == old(self).background,
                self.update_counter == old(self).update_counter,
                frame@.len() == old(frame)@.len(),
                frame@.len() >= 4 * n_cells(),
                forall|j: int| 4 * n_cells() <= j < frame@.len() ==> #[trigger] frame@[j] == old(frame)@[j],
                !any_glitch(g) ==> self.rng == old(self).rng,
                shimmer@.len() == n_cells(),
                forall|px: int, py: int| in_grid(px, py) && py < y ==>
                    #[trigger] pixel_shown(g, self.background@, shimmer@, frame@, px, py),
                has_glow == exists|px: int, py: int| in_grid(px, py) && py < y && #[trigger] glows_at(g, px, py),
            decreases SANDBOX_HEIGHT - y,
        {
            let mut x: usize = 0;
            while x < SANDBOX_WIDTH
                invariant
                    y < SANDBOX_HEIGHT,
                    x <= SANDBOX_WIDTH,
                    i == pixel_index(x as int, y as int),
                    self.sized(),
                    g == old(self).cells@,
                    self.cells == old(self).cells,
                    self.last_cells == old(self).last_cells,
                    self.background == old(self).background,
                    self.update_counter == old(self).update_counter,
                    frame@.len() == old(frame)@.len(),
                    frame@.len() >= 4 * n_cells(),
                    forall|j: int| 4 * n_cells() <= j < frame@.len() ==> #[trigger] frame@[j] == old(frame)@[j],
                    !any_glitch(g) ==> self.rng == old(self).rng,
                    shimmer@.len() == n_cells(),
                    forall|px: int, py: int| in_grid(px, py) && (py < y || (py == y && px < x)) ==>
                        #[trigger] pixel_shown(g, self.background@, shimmer@, frame@, px, py),
                    has_glow == exists|px: int, py: int| in_grid(px, py) && (py < y || (py == y && px < x))
                        && #[trigger] glows_at(g, px, py),
                decreases SANDBOX_WIDTH - x,
            {
                let ghost before = frame@;
                proof {
                    if !any_glitch(g) {
                        assert(!glitch_at(g, x as int, y as int));
                    }
                }
                let glow = draw_pixel(self, frame, shimmer, x, y, i);
                if glow {
                    has_glow = true;
                }
                proof {
                    assert forall|j: int| 4 * n_cells() <= j < frame@.len() implies #[trigger] frame@[j] == old(frame)@[j] by {
                        assert(frame@[j] == before[j]);
                    }
                    assert forall|px: int, py: int| in_grid(px, py) && (py < y || (py == y && px < x + 1)) implies
                        #[trigger] pixel_shown(g, self.background@, shimmer@, frame@, px, py) by {
                        if py < y || px < x {
                            assert(pixel_shown(g, self.background@, shimmer@, before, px, py));
                            let k = pixel_index(px, py);
                            assert(frame@[4 * k] == before[4 * k]);
                            assert(frame@[4 * k + 1] == before[4 * k + 1]);
                            assert(frame@[4 * k + 2] == before[4 * k + 2]);
                            assert(frame@[4 * k + 3] == before[4 * k + 3]);
                        }
                    }
                    if glow {
                        assert(glows_at(g, x as int, y as int));
                    }
                    if exists|px: int, py: int| in_grid(px, py) && (py < y || (py == y && px < x + 1))
                        && #[trigger] glows_at(g, px, py) {
                        let (px, py) = choose|px: int, py: int| in_grid(px, py) && (py < y || (py == y && px < x + 1))
                            && #[trigger] glows_at(g, px, py);
                        if !(px == x && py == y) {
                            assert(exists|qx: int, qy: int| in_grid(qx, qy) && (qy < y || (qy == y && qx < x))
                                && #[trigger] glows_at(g, qx, qy));
                        }
                    }
                }
                i = i + 1;
                x = x + 1;
            }
            y = y + 1;
        }
        proof {
            if any_glow(g) {
                let (px, py) = choose|px: int, py: int| in_grid(px, py) && #[trigger] glows_at(g, px, py);
                assert(exists|qx: int, qy: int| in_grid(qx, qy) && qy < SANDBOX_HEIGHT && #[trigger] glows_at(g, qx, qy));
            }
        }
        has_glow
    }
}

} // verus!
