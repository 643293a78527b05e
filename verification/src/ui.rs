//! The colours the interface uses for each selectable particle kind.

use vstd::prelude::*;
use crate::particle::ParticleType;

verus! {

/// The kinds (and the delete tool, `None`) that the interface offers: every
/// kind but Glass, SuperLife, Blood, Smoke and Steam, which only arise from
/// other particles.
pub open spec fn selectable(ptype: Option<ParticleType>) -> bool {
    match ptype {
        Some(ParticleType::Glass) | Some(ParticleType::SuperLife) | Some(ParticleType::Blood)
        | Some(ParticleType::Smoke) | Some(ParticleType::Steam) => false,
        _ => true,
    }
}

/// The button colour of a selectable kind.
pub open spec fn ui_color(ptype: Option<ParticleType>) -> (u8, u8, u8) {
    match ptype {
        None => (26, 26, 26),
        Some(ParticleType::Sand) => (196, 192, 135),
        Some(ParticleType::Water) => (26, 91, 165),
        Some(ParticleType::Acid) => (148, 219, 10),
        Some(ParticleType::Iridium) => (100, 100, 100),
        Some(ParticleType::Replicator) => (78, 21, 77),
        Some(ParticleType::Plant) => (6, 89, 9),
        Some(ParticleType::Cryotheum) => (12, 193, 255),
        Some(ParticleType::Unstable) => (94, 78, 55),
        Some(ParticleType::Electricity) => (255, 244, 49),
        Some(ParticleType::Life) => (135, 12, 211),
        Some(ParticleType::Fire) => (255, 151, 20),
        Some(ParticleType::Mirror) => (78, 216, 131),
        Some(ParticleType::Glitch) => (120, 119, 100),
        _ => (0, 0, 0),
    }
}

/// Whether a selectable kind's button takes light text (on a dark button).
pub open spec fn light_text(ptype: Option<ParticleType>) -> bool {
    match ptype {
        None | Some(ParticleType::Water) | Some(ParticleType::Iridium) | Some(ParticleType::Replicator)
        | Some(ParticleType::Plant) | Some(ParticleType::Unstable) | Some(ParticleType::Life) => true,
        _ => false,
    }
}

/// The button colour of `ptype` (see `ui_color`); the kinds that cannot be
/// selected have none, and asking for one panics.
pub fn ptype_ui_color(ptype: Option<ParticleType>) -> (c: [u8; 3])
    requires
        selectable(ptype),
    ensures
        c@ == seq![ui_color(ptype).0, ui_color(ptype).1, ui_color(ptype).2],
{
    let c: [u8; 3] = match ptype {
        None => [26, 26, 26],
        Some(ParticleType::Sand) => [196, 192, 135],
        Some(ParticleType::Water) => [26, 91, 165],
        Some(ParticleType::Acid) => [148, 219, 10],
        Some(ParticleType::Iridium) => [100, 100, 100],
        Some(ParticleType::Replicator) => [78, 21, 77],
        Some(ParticleType::Plant) => [6, 89, 9],
        Some(ParticleType::Cryotheum) => [12, 193, 255],
        Some(ParticleType::Unstable) => [94, 78, 55],
        Some(ParticleType::Electricity) => [255, 244, 49],
        Some(ParticleType::Life) => [135, 12, 211],
        Some(ParticleType::Fire) => [255, 151, 20],
        Some(ParticleType::Mirror) => [78, 216, 131],
        _ => [120, 119, 100],
    };
    assert(c@ =~= seq![ui_color(ptype).0, ui_color(ptype).1, ui_color(ptype).2]);
    c
}

/// The text colour on `ptype`'s button: light grey on dark buttons, black on
/// light ones; the kinds that cannot be selected have none.
pub fn ptype_ui_text_color(ptype: Option<ParticleType>) -> (c: [u8; 3])
    requires
        selectable(ptype),
    ensures
        light_text(ptype) ==> c@ == seq![204u8, 204u8, 204u8],
        !light_text(ptype) ==> c@ == seq![0u8, 0u8, 0u8],
{
    let light = match ptype {
        None => true,
        Some(ParticleType::Sand) => false,
        Some(ParticleType::Water) => true,
        Some(ParticleType::Acid) => false,
        Some(ParticleType::Iridium) => true,
        Some(ParticleType::Replicator) => true,
        Some(ParticleType::Plant) => true,
        Some(ParticleType::Cryotheum) => false,
        Some(ParticleType::Unstable) => true,
        Some(ParticleType::Electricity) => false,
        Some(ParticleType::Life) => true,
        Some(ParticleType::Fire) => false,
        Some(ParticleType::Mirror) => false,
        _ => false,
    };
    let c: [u8; 3] = if light { [204, 204, 204] } else { [0, 0, 0] };
    assert(light ==> c@ =~= seq![204u8, 204u8, 204u8]);
    assert(!light ==> c@ =~= seq![0u8, 0u8, 0u8]);
    c
}

} // verus!
