use sandbox::behavior::{
    move_electricity_with, move_fire_with, move_gas, move_gas_with, move_life, move_life_with, move_liquid, move_liquid_with, move_powder,
    move_powder_with, move_solid,
    move_super_life, update_acid, update_blood, update_cryotheum, update_electricity, update_glitch, update_life,
    update_glitch_with, update_life_with, update_mirror, update_plant, update_plant_with, update_replicator,
    update_replicator_with, update_sand, update_smoke, update_steam, update_unstable, update_water, update_water_with,
};
use rand::Rng;
use sandbox::particle::{Particle, ParticleType};
use sandbox::sandbox::{Sandbox, SANDBOX_HEIGHT, SANDBOX_WIDTH};

fn particle(ptype: ParticleType) -> Particle {
    Particle { ptype, temperature: 0, extra_data1: 0, extra_data2: 0, color_offset: 0, last_update: 0 }
}

fn with_temp(ptype: ParticleType, temperature: i16) -> Particle {
    Particle { temperature, ..particle(ptype) }
}

fn kind(sb: &Sandbox, x: usize, y: usize) -> Option<ParticleType> {
    sb.get(x, y).map(|p| p.ptype)
}

fn count_particles(sb: &Sandbox) -> usize {
    sb.cells.iter().filter(|c| c.is_some()).count()
}

#[test]
fn solid_falls_one_cell() {
    let mut sb = Sandbox::new();
    sb.set(5, 5, Some(particle(ParticleType::Iridium)));
    assert_eq!(move_solid(&mut sb, 5, 5), (5, 6));
    assert_eq!(kind(&sb, 5, 5), None);
    assert_eq!(kind(&sb, 5, 6), Some(ParticleType::Iridium));
}

#[test]
fn solid_rests_on_the_bottom_row_and_on_particles() {
    let mut sb = Sandbox::new();
    let bottom = SANDBOX_HEIGHT - 1;
    sb.set(5, bottom, Some(particle(ParticleType::Iridium)));
    assert_eq!(move_solid(&mut sb, 5, bottom), (5, bottom));
    sb.set(5, bottom - 1, Some(particle(ParticleType::Glass)));
    assert_eq!(move_solid(&mut sb, 5, bottom - 1), (5, bottom - 1));
    assert_eq!(count_particles(&sb), 2);
}

#[test]
fn powder_slides_to_the_open_diagonal() {
    let mut sb = Sandbox::new();
    sb.set(5, 6, Some(particle(ParticleType::Iridium)));
    sb.set(6, 5, Some(particle(ParticleType::Iridium)));
    sb.set(5, 5, Some(particle(ParticleType::Sand)));
    let rng = sb.rng.clone();
    assert_eq!(move_powder(&mut sb, 5, 5), (4, 6));
    assert_eq!(kind(&sb, 4, 6), Some(ParticleType::Sand));
    // Only one way was open: nothing was drawn.
    assert!(sb.rng == rng);

    let mut sb = Sandbox::new();
    sb.set(5, 6, Some(particle(ParticleType::Iridium)));
    sb.set(4, 5, Some(particle(ParticleType::Iridium)));
    sb.set(5, 5, Some(particle(ParticleType::Sand)));
    assert_eq!(move_powder(&mut sb, 5, 5), (6, 6));

    let mut sb = Sandbox::new();
    sb.set(5, 6, Some(particle(ParticleType::Iridium)));
    sb.set(4, 5, Some(particle(ParticleType::Iridium)));
    sb.set(6, 6, Some(particle(ParticleType::Iridium)));
    sb.set(5, 5, Some(particle(ParticleType::Sand)));
    assert_eq!(move_powder(&mut sb, 5, 5), (5, 5));
}

#[test]
fn powder_picks_a_side_at_random_when_both_are_open() {
    let mut sb = Sandbox::new();
    sb.set(5, 6, Some(particle(ParticleType::Iridium)));
    sb.set(5, 5, Some(particle(ParticleType::Sand)));
    assert_eq!(move_powder_with(&mut sb, 5, 5, false), (4, 6));
    let mut sb = Sandbox::new();
    sb.set(5, 6, Some(particle(ParticleType::Iridium)));
    sb.set(5, 5, Some(particle(ParticleType::Sand)));
    assert_eq!(move_powder_with(&mut sb, 5, 5, true), (6, 6));

    let mut seen = std::collections::HashSet::new();
    let mut sb = Sandbox::new();
    for _ in 0..40 {
        sb.empty_out();
        sb.set(5, 6, Some(particle(ParticleType::Iridium)));
        sb.set(5, 5, Some(particle(ParticleType::Sand)));
        let to = move_powder(&mut sb, 5, 5);
        assert!(to == (4, 6) || to == (6, 6));
        seen.insert(to);
    }
    assert_eq!(seen.len(), 2);
}

#[test]
fn powder_at_the_left_edge_only_tries_right() {
    let mut sb = Sandbox::new();
    sb.set(0, 6, Some(particle(ParticleType::Iridium)));
    sb.set(0, 5, Some(particle(ParticleType::Sand)));
    assert_eq!(move_powder(&mut sb, 0, 5), (1, 6));
}

#[test]
fn liquid_spreads_sideways_on_the_floor() {
    let mut sb = Sandbox::new();
    let bottom = SANDBOX_HEIGHT - 1;
    sb.set(5, bottom, Some(particle(ParticleType::Water)));
    assert_eq!(move_liquid_with(&mut sb, 5, bottom, false), (4, bottom));
    sb.set(3, bottom, Some(particle(ParticleType::Iridium)));
    assert_eq!(move_liquid(&mut sb, 4, bottom), (5, bottom));
    assert_eq!(move_liquid_with(&mut sb, 5, bottom, true), (6, bottom));
    let right = SANDBOX_WIDTH - 1;
    sb.set(right, bottom, Some(particle(ParticleType::Water)));
    sb.set(right - 1, bottom, Some(particle(ParticleType::Iridium)));
    assert_eq!(move_liquid(&mut sb, right, bottom), (right, bottom));

    let mut seen = std::collections::HashSet::new();
    for _ in 0..40 {
        sb.empty_out();
        sb.set(5, bottom, Some(particle(ParticleType::Water)));
        let to = move_liquid(&mut sb, 5, bottom);
        assert!(to == (4, bottom) || to == (6, bottom));
        seen.insert(to);
    }
    assert_eq!(seen.len(), 2);
}

#[test]
fn gas_rises_or_drifts() {
    let mut sb = Sandbox::new();
    sb.set(5, 5, Some(particle(ParticleType::Steam)));
    assert_eq!(move_gas_with(&mut sb, 5, 5, true, true), (5, 4));
    assert_eq!(move_gas_with(&mut sb, 5, 4, false, false), (4, 4));
    assert_eq!(move_gas_with(&mut sb, 4, 4, false, true), (5, 4));
    sb.set(5, 3, Some(particle(ParticleType::Iridium)));
    assert_eq!(move_gas_with(&mut sb, 5, 4, true, false), (4, 3));
    assert_eq!(move_gas_with(&mut sb, 4, 3, false, false), (3, 3));
    // On the top row it cannot rise.
    sb.set(10, 0, Some(particle(ParticleType::Smoke)));
    assert_eq!(move_gas_with(&mut sb, 10, 0, true, false), (9, 0));
    sb.set(8, 0, Some(particle(ParticleType::Iridium)));
    let rng = sb.rng.clone();
    assert_eq!(move_gas(&mut sb, 9, 0), (10, 0));
    // On the top row with one way open, nothing is drawn.
    assert!(sb.rng == rng);
}

#[test]
fn electricity_swaps_with_water_in_the_first_free_direction() {
    let mut sb = Sandbox::new();
    sb.set(5, 5, Some(particle(ParticleType::Electricity)));
    sb.set(5, 6, Some(particle(ParticleType::Water)));
    let order = [(1, 0), (-1, 0), (0, 1), (0, -1)];
    assert_eq!(move_electricity_with(&mut sb, 5, 5, &order), (5, 6));
    assert_eq!(kind(&sb, 5, 5), Some(ParticleType::Water));
    let e = sb.get(5, 6).unwrap();
    assert_eq!(e.ptype, ParticleType::Electricity);
    // The direction and the counter are set on a copy that is dropped, so
    // the moved particle keeps its own.
    assert_eq!(e.extra_data1, 0);
    assert_eq!(e.extra_data2, 0);
}

#[test]
fn electricity_keeps_its_direction_while_counting_down() {
    let mut sb = Sandbox::new();
    let e = Particle { extra_data1: 0, extra_data2: 5, ..particle(ParticleType::Electricity) };
    sb.set(5, 5, Some(e));
    sb.set(6, 5, Some(particle(ParticleType::Water)));
    sb.set(5, 6, Some(particle(ParticleType::Water)));
    let order = [(0, 1), (1, 0), (-1, 0), (0, -1)];
    assert_eq!(move_electricity_with(&mut sb, 5, 5, &order), (6, 5));
    assert_eq!(sb.get(6, 5).unwrap().extra_data2, 4);
    assert_eq!(kind(&sb, 5, 5), Some(ParticleType::Water));

    // Counting down without water ahead: it stays where it is.
    let mut sb = Sandbox::new();
    let e = Particle { extra_data1: 1, extra_data2: 3, ..particle(ParticleType::Electricity) };
    sb.set(5, 5, Some(e));
    assert_eq!(move_electricity_with(&mut sb, 5, 5, &order), (5, 5));
    assert_eq!(sb.get(5, 5).unwrap().extra_data2, 2);
}

#[test]
fn electricity_falls_or_is_marked() {
    let order = [(1, 0), (-1, 0), (0, 1), (0, -1)];
    let mut sb = Sandbox::new();
    sb.set(5, 5, Some(particle(ParticleType::Electricity)));
    assert_eq!(move_electricity_with(&mut sb, 5, 5, &order), (5, 6));

    let bottom = SANDBOX_HEIGHT - 1;
    sb.set(7, bottom, Some(particle(ParticleType::Electricity)));
    assert_eq!(move_electricity_with(&mut sb, 7, bottom, &order), (7, bottom));
    assert_eq!(sb.get(7, bottom).unwrap().extra_data2, -1);

    sb.set(20, 20, Some(particle(ParticleType::Electricity)));
    sb.set(20, 21, Some(particle(ParticleType::Replicator)));
    assert_eq!(move_electricity_with(&mut sb, 20, 20, &order), (20, 20));
    assert_eq!(sb.get(20, 20).unwrap().extra_data2, 0);

    sb.set(30, 20, Some(particle(ParticleType::Electricity)));
    sb.set(30, 21, Some(particle(ParticleType::Sand)));
    assert_eq!(move_electricity_with(&mut sb, 30, 20, &order), (30, 20));
    assert_eq!(sb.get(30, 20).unwrap().extra_data2, -1);
}

#[test]
fn life_counts_its_fall() {
    let mut sb = Sandbox::new();
    sb.set(5, 5, Some(particle(ParticleType::Life)));
    assert_eq!(move_life(&mut sb, 5, 5), (5, 6));
    assert_eq!(sb.get(5, 6).unwrap().extra_data1, 1);

    let falling = Particle { extra_data1: 127, ..particle(ParticleType::Life) };
    sb.set(9, 9, Some(falling));
    assert_eq!(move_life(&mut sb, 9, 9), (9, 10));
    assert_eq!(sb.get(9, 10).unwrap().extra_data1, 127);
}

#[test]
fn life_dies_after_a_long_fall() {
    let mut sb = Sandbox::new();
    let bottom = SANDBOX_HEIGHT - 1;
    sb.set(5, bottom, Some(Particle { extra_data1: 61, ..particle(ParticleType::Life) }));
    assert_eq!(move_life(&mut sb, 5, bottom), (5, bottom));
    let p = sb.get(5, bottom).unwrap();
    assert_eq!(p.extra_data2, 1);
    assert_eq!(p.extra_data1, 61);

    sb.set(9, bottom, Some(Particle { extra_data1: 60, ..particle(ParticleType::Life) }));
    assert_eq!(move_life_with(&mut sb, 9, bottom, false), (8, bottom));
    let p = sb.get(8, bottom).unwrap();
    assert_eq!(p.extra_data2, 0);
    assert_eq!(p.extra_data1, 0);
    assert_eq!(move_life_with(&mut sb, 8, bottom, true), (9, bottom));
}

#[test]
fn life_walks_to_a_random_side_when_both_are_open() {
    let bottom = SANDBOX_HEIGHT - 1;
    let mut seen = std::collections::HashSet::new();
    let mut sb = Sandbox::new();
    for _ in 0..40 {
        sb.empty_out();
        sb.set(20, bottom, Some(particle(ParticleType::Life)));
        let to = move_life(&mut sb, 20, bottom);
        assert!(to == (19, bottom) || to == (21, bottom));
        seen.insert(to);
    }
    assert_eq!(seen.len(), 2);
}

#[test]
fn life_does_not_walk_off_a_cliff() {
    let mut sb = Sandbox::new();
    sb.set(5, 10, Some(particle(ParticleType::Life)));
    sb.set(5, 11, Some(particle(ParticleType::Iridium)));
    assert_eq!(move_life(&mut sb, 5, 10), (5, 10));
    // A drop of 31 cells on the right is still too deep, one of 30 is fine.
    for y in 42..SANDBOX_HEIGHT {
        sb.set(6, y, Some(particle(ParticleType::Iridium)));
    }
    assert_eq!(move_life(&mut sb, 5, 10), (5, 10));
    sb.set(6, 41, Some(particle(ParticleType::Iridium)));
    assert_eq!(move_life(&mut sb, 5, 10), (6, 10));
}

#[test]
fn super_life_swaps_with_life_then_moves() {
    let mut sb = Sandbox::new();
    let bottom = SANDBOX_HEIGHT - 1;
    sb.set(5, bottom - 1, Some(particle(ParticleType::SuperLife)));
    sb.set(5, bottom, Some(particle(ParticleType::Life)));
    sb.set(4, bottom, Some(particle(ParticleType::Iridium)));
    sb.set(6, bottom, Some(particle(ParticleType::Iridium)));
    sb.set(7, bottom, Some(particle(ParticleType::Iridium)));
    // Swap down; walled in on both sides, the two Life steps stay put.
    let to = move_super_life(&mut sb, 5, bottom - 1);
    assert_eq!(kind(&sb, 5, bottom - 1), Some(ParticleType::Life));
    assert_eq!(kind(&sb, to.0, to.1), Some(ParticleType::SuperLife));
    assert_eq!(to, (5, bottom));
}

#[test]
fn fire_cools_as_it_rises_and_ages_when_stuck() {
    let mut sb = Sandbox::new();
    sb.set(5, 5, Some(particle(ParticleType::Fire)));
    assert_eq!(move_fire_with(&mut sb, 5, 5, true, false), (5, 4));
    assert_eq!(sb.get(5, 4).unwrap().extra_data2, -1);

    sb.set(4, 4, Some(particle(ParticleType::Iridium)));
    sb.set(6, 4, Some(particle(ParticleType::Iridium)));
    assert_eq!(move_fire_with(&mut sb, 5, 4, false, false), (5, 4));
    assert_eq!(sb.get(5, 4).unwrap().extra_data2, 0);
    assert_eq!(move_fire_with(&mut sb, 5, 4, false, false), (5, 4));
    assert_eq!(sb.get(5, 4).unwrap().extra_data2, 1);
}

#[test]
fn sand_dries_and_melts() {
    let mut sb = Sandbox::new();
    sb.set(5, 5, Some(Particle { extra_data1: 1, temperature: 30, ..particle(ParticleType::Sand) }));
    update_sand(&mut sb, 5, 5);
    assert_eq!(sb.get(5, 5).unwrap().extra_data1, 0);
    sb.set(5, 5, Some(Particle { extra_data1: 1, temperature: 29, ..particle(ParticleType::Sand) }));
    update_sand(&mut sb, 5, 5);
    assert_eq!(sb.get(5, 5).unwrap().extra_data1, 1);
    sb.set(5, 5, Some(with_temp(ParticleType::Sand, 120)));
    update_sand(&mut sb, 5, 5);
    assert_eq!(kind(&sb, 5, 5), Some(ParticleType::Glass));
    sb.set(5, 5, Some(with_temp(ParticleType::Sand, 119)));
    update_sand(&mut sb, 5, 5);
    assert_eq!(kind(&sb, 5, 5), Some(ParticleType::Sand));
}

#[test]
fn water_boils_or_soaks_into_sand() {
    let mut sb = Sandbox::new();
    sb.set(5, 5, Some(with_temp(ParticleType::Water, 100)));
    update_water_with(&mut sb, 5, 5, true);
    assert_eq!(kind(&sb, 5, 5), Some(ParticleType::Steam));

    let mut sb = Sandbox::new();
    sb.set(5, 5, Some(with_temp(ParticleType::Water, 99)));
    sb.set(5, 6, Some(Particle { extra_data1: 1, ..particle(ParticleType::Sand) }));
    sb.set(5, 7, Some(particle(ParticleType::Sand)));
    update_water_with(&mut sb, 5, 5, true);
    assert_eq!(kind(&sb, 5, 5), None);
    assert_eq!(sb.get(5, 7).unwrap().extra_data1, 1);

    let mut sb = Sandbox::new();
    sb.set(5, 5, Some(particle(ParticleType::Water)));
    sb.set(5, 6, Some(particle(ParticleType::Iridium)));
    sb.set(5, 7, Some(particle(ParticleType::Sand)));
    update_water_with(&mut sb, 5, 5, false);
    assert_eq!(kind(&sb, 5, 5), Some(ParticleType::Water));
    assert_eq!(sb.get(5, 7).unwrap().extra_data1, 0);
}

#[test]
fn acid_dissolves_and_heats_around_water() {
    let mut sb = Sandbox::new();
    sb.set(5, 5, Some(particle(ParticleType::Acid)));
    sb.set(5, 6, Some(particle(ParticleType::Water)));
    sb.set(7, 7, Some(particle(ParticleType::Iridium)));
    sb.set(2, 2, Some(particle(ParticleType::Iridium)));
    sb.set(9, 5, Some(particle(ParticleType::Iridium)));
    update_acid(&mut sb, 5, 5);
    assert_eq!(kind(&sb, 5, 5), None);
    assert_eq!(kind(&sb, 5, 6), None);
    assert_eq!(sb.get(7, 7).unwrap().temperature, 2);
    assert_eq!(sb.get(2, 2).unwrap().temperature, 2);
    assert_eq!(sb.get(9, 5).unwrap().temperature, 0);
}

#[test]
fn acid_spares_resistant_particles() {
    let mut sb = Sandbox::new();
    sb.set(5, 5, Some(particle(ParticleType::Acid)));
    sb.set(5, 6, Some(particle(ParticleType::Iridium)));
    sb.set(6, 5, Some(particle(ParticleType::Glass)));
    sb.set(4, 5, Some(particle(ParticleType::Sand)));
    sb.set(3, 4, Some(particle(ParticleType::Iridium)));
    update_acid(&mut sb, 5, 5);
    assert_eq!(kind(&sb, 5, 5), None);
    assert_eq!(kind(&sb, 4, 5), None);
    assert_eq!(kind(&sb, 5, 6), Some(ParticleType::Iridium));
    assert_eq!(kind(&sb, 6, 5), Some(ParticleType::Glass));
    // No water was dissolved: nothing was heated.
    assert_eq!(sb.get(3, 4).unwrap().temperature, 0);
}

#[test]
fn cryotheum_waits_then_chills_a_disc() {
    let mut sb = Sandbox::new();
    sb.set(100, 100, Some(with_temp(ParticleType::Cryotheum, 0)));
    update_cryotheum(&mut sb, 100, 100);
    assert_eq!(sb.get(100, 100).unwrap().extra_data1, 21);

    let mut sb = Sandbox::new();
    sb.set(100, 100, Some(Particle { extra_data1: 2, ..with_temp(ParticleType::Cryotheum, -60) }));
    sb.set(109, 112, Some(particle(ParticleType::Sand)));
    sb.set(100, 115, Some(particle(ParticleType::Sand)));
    sb.set(111, 111, Some(particle(ParticleType::Sand)));
    sb.set(101, 100, Some(particle(ParticleType::Smoke)));
    sb.set(99, 100, Some(particle(ParticleType::Cryotheum)));
    update_cryotheum(&mut sb, 100, 100);
    assert_eq!(kind(&sb, 100, 100), None);
    assert_eq!(sb.get(109, 112).unwrap().temperature, -100);
    assert_eq!(sb.get(100, 115).unwrap().temperature, -100);
    assert_eq!(sb.get(111, 111).unwrap().temperature, 0);
    assert_eq!(sb.get(101, 100).unwrap().temperature, 0);
    assert_eq!(sb.get(99, 100).unwrap().temperature, 0);

    let mut sb = Sandbox::new();
    sb.set(100, 100, Some(Particle { extra_data1: 10, ..with_temp(ParticleType::Cryotheum, 5) }));
    update_cryotheum(&mut sb, 100, 100);
    assert_eq!(sb.get(100, 100).unwrap().extra_data1, 9);
}

#[test]
fn unstable_heats_up_then_explodes() {
    let mut sb = Sandbox::new();
    sb.set(100, 100, Some(Particle { extra_data1: 5, ..particle(ParticleType::Unstable) }));
    update_unstable(&mut sb, 100, 100);
    let p = sb.get(100, 100).unwrap();
    assert_eq!((p.extra_data1, p.temperature), (6, 0));

    let mut sb = Sandbox::new();
    sb.set(100, 100, Some(Particle { extra_data1: 30, ..with_temp(ParticleType::Unstable, 190) }));
    sb.set(130, 130, Some(particle(ParticleType::Sand)));
    sb.set(131, 100, Some(particle(ParticleType::Sand)));
    sb.set(90, 90, Some(particle(ParticleType::Iridium)));
    sb.set(91, 90, Some(particle(ParticleType::Fire)));
    update_unstable(&mut sb, 100, 100);
    assert_eq!(kind(&sb, 100, 100), Some(ParticleType::Smoke));
    assert_eq!(kind(&sb, 130, 130), Some(ParticleType::Smoke));
    assert_eq!(kind(&sb, 131, 100), Some(ParticleType::Sand));
    assert_eq!(kind(&sb, 90, 90), Some(ParticleType::Iridium));
    assert_eq!(kind(&sb, 91, 90), Some(ParticleType::Fire));
    let smoke = sb.get(130, 130).unwrap();
    assert_eq!(smoke.extra_data2, 90);
    assert!((70..110).contains(&smoke.extra_data1));
}

#[test]
fn electricity_blood_and_steam_updates() {
    let mut sb = Sandbox::new();
    sb.set(1, 1, Some(Particle { extra_data2: -1, ..particle(ParticleType::Electricity) }));
    sb.set(2, 2, Some(particle(ParticleType::Electricity)));
    update_electricity(&mut sb, 1, 1);
    update_electricity(&mut sb, 2, 2);
    assert_eq!(kind(&sb, 1, 1), None);
    assert_eq!(kind(&sb, 2, 2), Some(ParticleType::Electricity));

    sb.set(3, 3, Some(with_temp(ParticleType::Blood, 137)));
    sb.set(4, 4, Some(with_temp(ParticleType::Blood, 136)));
    update_blood(&mut sb, 3, 3);
    update_blood(&mut sb, 4, 4);
    assert_eq!(kind(&sb, 3, 3), None);
    assert_eq!(kind(&sb, 4, 4), Some(ParticleType::Blood));

    sb.set(5, 5, Some(with_temp(ParticleType::Steam, 99)));
    sb.set(6, 6, Some(with_temp(ParticleType::Steam, 100)));
    update_steam(&mut sb, 5, 5);
    update_steam(&mut sb, 6, 6);
    assert_eq!(kind(&sb, 5, 5), Some(ParticleType::Water));
    assert_eq!(kind(&sb, 6, 6), Some(ParticleType::Steam));
}

#[test]
fn smoke_lingers_then_fades() {
    let mut sb = Sandbox::new();
    sb.set(5, 5, Some(Particle { extra_data1: 2, extra_data2: 1, ..particle(ParticleType::Smoke) }));
    update_smoke(&mut sb, 5, 5);
    update_smoke(&mut sb, 5, 5);
    let p = sb.get(5, 5).unwrap();
    assert_eq!((p.extra_data1, p.extra_data2), (0, 1));
    update_smoke(&mut sb, 5, 5);
    assert_eq!(kind(&sb, 5, 5), None);
}

#[test]
fn mirror_counts_frames_and_teleports_down() {
    let mut sb = Sandbox::new();
    sb.set(5, 5, Some(Particle { extra_data1: 120, ..particle(ParticleType::Mirror) }));
    sb.set(5, 6, Some(particle(ParticleType::Mirror)));
    sb.set(5, 4, Some(particle(ParticleType::Sand)));
    update_mirror(&mut sb, 5, 5);
    assert_eq!(sb.get(5, 5).unwrap().extra_data1, 0);
    assert_eq!(kind(&sb, 5, 4), None);
    assert_eq!(kind(&sb, 5, 7), Some(ParticleType::Sand));

    let mut sb = Sandbox::new();
    sb.set(5, 5, Some(particle(ParticleType::Mirror)));
    sb.set(5, 6, Some(particle(ParticleType::Iridium)));
    sb.set(5, 4, Some(particle(ParticleType::Sand)));
    update_mirror(&mut sb, 5, 5);
    assert_eq!(sb.get(5, 5).unwrap().extra_data1, 1);
    assert_eq!(kind(&sb, 5, 4), Some(ParticleType::Sand));
}

#[test]
fn replicator_copies_its_neighbours() {
    let mut sb = Sandbox::new();
    sb.set(50, 50, Some(particle(ParticleType::Replicator)));
    sb.set(50, 51, Some(with_temp(ParticleType::Sand, 7)));
    sb.set(51, 50, Some(particle(ParticleType::Replicator)));
    sb.set(50, 49, Some(particle(ParticleType::Water)));
    sb.set(50, 48, Some(particle(ParticleType::Iridium)));
    update_replicator(&mut sb, 50, 50);
    assert_eq!(sb.get(50, 50).unwrap().extra_data1, 1);
    let copy = sb.get(50, 52).unwrap();
    assert_eq!((copy.ptype, copy.temperature), (ParticleType::Sand, 7));
    assert!((-10..=10).contains(&copy.color_offset));
    assert_eq!(kind(&sb, 52, 50), None);
    assert_eq!(kind(&sb, 50, 48), Some(ParticleType::Iridium));

    let mut sb = Sandbox::new();
    sb.set(50, 50, Some(Particle { extra_data1: 1, ..particle(ParticleType::Replicator) }));
    update_replicator(&mut sb, 50, 50);
    assert_eq!(sb.get(50, 50).unwrap().extra_data1, 0);
}

#[test]
fn plant_burns_and_takes_root() {
    let mut sb = Sandbox::new();
    sb.set(5, 5, Some(with_temp(ParticleType::Plant, 101)));
    update_plant(&mut sb, 5, 5);
    assert_eq!(kind(&sb, 5, 5), Some(ParticleType::Fire));

    let mut sb = Sandbox::new();
    sb.set(5, 5, Some(particle(ParticleType::Plant)));
    sb.set(5, 6, Some(Particle { extra_data1: 1, ..particle(ParticleType::Sand) }));
    update_plant(&mut sb, 5, 5);
    assert_eq!(sb.get(5, 5).unwrap().extra_data2, 1);
    assert_eq!(sb.cells.iter().filter(|c| c.is_some()).count(), 2);

    let mut sb = Sandbox::new();
    sb.set(5, 5, Some(Particle { extra_data1: 3, extra_data2: 1, ..particle(ParticleType::Plant) }));
    update_plant(&mut sb, 5, 5);
    for x in 4..=6 {
        for y in 3..=7 {
            if let Some(p) = sb.get(x, y) {
                if (x, y) != (5, 5) {
                    assert_eq!(p.ptype, ParticleType::Plant);
                    assert_eq!((p.extra_data1, p.extra_data2), (2, 1));
                }
            }
        }
    }
    assert!(count_particles(&sb) <= 2);
}

#[test]
fn glitch_scrambles_a_neighbour_but_not_a_replicator() {
    let mut sb = Sandbox::new();
    sb.set(5, 5, Some(particle(ParticleType::Glitch)));
    sb.set(5, 6, Some(particle(ParticleType::Iridium)));
    update_glitch(&mut sb, 5, 5);
    assert_eq!(kind(&sb, 5, 5), None);
    assert!(sb.get(5, 6).is_some());

    let mut sb = Sandbox::new();
    sb.set(5, 5, Some(particle(ParticleType::Glitch)));
    sb.set(5, 6, Some(particle(ParticleType::Replicator)));
    sb.set(6, 5, Some(particle(ParticleType::Glitch)));
    update_glitch(&mut sb, 5, 5);
    assert_eq!(kind(&sb, 5, 5), Some(ParticleType::Glitch));
    assert_eq!(kind(&sb, 5, 6), Some(ParticleType::Replicator));
}

#[test]
fn life_dies_of_heat_and_turns_super_on_blood() {
    let mut sb = Sandbox::new();
    sb.set(5, 5, Some(with_temp(ParticleType::Life, 51)));
    update_life(&mut sb, 5, 5);
    assert_eq!(sb.get(5, 5).unwrap().extra_data2, 1);

    let mut sb = Sandbox::new();
    sb.set(5, 5, Some(with_temp(ParticleType::Life, -51)));
    sb.set(5, 6, Some(particle(ParticleType::Blood)));
    update_life(&mut sb, 5, 5);
    assert_eq!(sb.get(5, 5).unwrap().extra_data2, 1);
    assert_eq!(kind(&sb, 5, 6), Some(ParticleType::Blood));

    let mut sb = Sandbox::new();
    sb.set(5, 5, Some(particle(ParticleType::Life)));
    sb.set(6, 5, Some(particle(ParticleType::Blood)));
    update_life(&mut sb, 5, 5);
    assert_eq!(kind(&sb, 5, 5), Some(ParticleType::SuperLife));
    assert_eq!(kind(&sb, 6, 5), None);

    let mut sb = Sandbox::new();
    sb.set(5, 5, Some(particle(ParticleType::SuperLife)));
    sb.set(6, 5, Some(particle(ParticleType::Blood)));
    update_life(&mut sb, 5, 5);
    assert_eq!(kind(&sb, 5, 5), Some(ParticleType::SuperLife));
    assert_eq!(kind(&sb, 6, 5), Some(ParticleType::Blood));
}

#[test]
fn particle_dispatch_moves_by_kind() {
    let mut sb = Sandbox::new();
    let iridium = particle(ParticleType::Iridium);
    sb.set(5, 5, Some(iridium));
    let rng = sb.rng.clone();
    assert_eq!(iridium.move_particle(&mut sb, 5, 5), (5, 5));
    assert!(sb.rng == rng);

    let bottom = SANDBOX_HEIGHT - 1;
    let frozen = with_temp(ParticleType::Water, -80);
    sb.set(20, bottom, Some(frozen));
    assert_eq!(frozen.move_particle(&mut sb, 20, bottom), (20, bottom));
    let liquid = with_temp(ParticleType::Water, -79);
    sb.set(30, bottom, Some(liquid));
    sb.set(31, bottom, Some(iridium));
    assert_eq!(liquid.move_particle(&mut sb, 30, bottom), (29, bottom));
    let molten = with_temp(ParticleType::Glass, 30);
    sb.set(40, bottom, Some(molten));
    sb.set(41, bottom, Some(iridium));
    assert_eq!(molten.move_particle(&mut sb, 40, bottom), (39, bottom));
    let wet = Particle { extra_data1: 1, ..particle(ParticleType::Sand) };
    sb.set(50, 10, Some(wet));
    assert_eq!(wet.move_particle(&mut sb, 50, 10), (50, 11));
}

#[test]
fn particle_dispatch_updates_by_kind() {
    let mut sb = Sandbox::new();
    let glass = with_temp(ParticleType::Glass, 500);
    sb.set(5, 5, Some(glass));
    glass.update(&mut sb, 5, 5);
    assert_eq!(sb.get(5, 5), Some(glass));
    let sand = with_temp(ParticleType::Sand, 200);
    sb.set(6, 6, Some(sand));
    sand.update(&mut sb, 6, 6);
    assert_eq!(kind(&sb, 6, 6), Some(ParticleType::Glass));
}

#[test]
fn glitch_with_given_particles() {
    let mut sb = Sandbox::new();
    sb.set(5, 5, Some(particle(ParticleType::Glitch)));
    sb.set(5, 6, Some(particle(ParticleType::Iridium)));
    sb.set(6, 5, Some(particle(ParticleType::Replicator)));
    sb.set(4, 5, Some(particle(ParticleType::Sand)));
    let drawn = [
        with_temp(ParticleType::Water, 1),
        with_temp(ParticleType::Acid, 2),
        with_temp(ParticleType::Fire, 3),
        with_temp(ParticleType::Blood, 4),
    ];
    update_glitch_with(&mut sb, 5, 5, &drawn);
    assert_eq!(kind(&sb, 5, 5), None);
    // Neighbours in order: below, right, above, left.
    assert_eq!(sb.get(5, 6), Some(drawn[0]));
    assert_eq!(kind(&sb, 6, 5), Some(ParticleType::Replicator));
    assert_eq!(sb.get(5, 4), None);
    assert_eq!(sb.get(4, 5), Some(drawn[3]));
}

#[test]
fn replicator_with_given_offsets() {
    let mut sb = Sandbox::new();
    sb.set(50, 50, Some(particle(ParticleType::Replicator)));
    sb.set(50, 51, Some(with_temp(ParticleType::Sand, 7)));
    sb.set(49, 50, Some(particle(ParticleType::Water)));
    update_replicator_with(&mut sb, 50, 50, &[-7, 3, 9, 4]);
    assert_eq!(sb.get(50, 52), Some(Particle { color_offset: -7, ..with_temp(ParticleType::Sand, 7) }));
    assert_eq!(sb.get(48, 50), Some(Particle { color_offset: 4, ..particle(ParticleType::Water) }));
    assert_eq!(sb.get(50, 50).unwrap().extra_data1, 1);
    assert_eq!(sb.cells.iter().filter(|c| c.is_some()).count(), 5);
}

#[test]
fn plant_with_given_offset_and_shoot() {
    let mut sb = Sandbox::new();
    sb.set(5, 5, Some(Particle { extra_data1: 3, extra_data2: 1, ..particle(ParticleType::Plant) }));
    let shoot = Particle { extra_data1: 2, extra_data2: 1, color_offset: 5, ..particle(ParticleType::Plant) };
    update_plant_with(&mut sb, 5, 5, 1, -2, shoot);
    assert_eq!(sb.get(6, 3), Some(shoot));
    // Growing onto itself does nothing.
    let mut sb = Sandbox::new();
    sb.set(5, 5, Some(Particle { extra_data1: 3, extra_data2: 1, ..particle(ParticleType::Plant) }));
    update_plant_with(&mut sb, 5, 5, 0, 0, shoot);
    assert_eq!(sb.cells.iter().filter(|c| c.is_some()).count(), 1);
    // Without budget left it does not grow.
    let mut sb = Sandbox::new();
    sb.set(5, 5, Some(Particle { extra_data1: 0, extra_data2: 1, ..particle(ParticleType::Plant) }));
    update_plant_with(&mut sb, 5, 5, 1, 1, shoot);
    assert_eq!(sb.get(6, 6), None);
}

#[test]
fn life_with_given_coins() {
    let born = Particle { color_offset: 3, ..particle(ParticleType::Life) };
    let mut sb = Sandbox::new();
    sb.set(5, 5, Some(particle(ParticleType::Life)));
    sb.set(5, 6, Some(particle(ParticleType::Plant)));
    sb.set(6, 5, Some(particle(ParticleType::Plant)));
    update_life_with(&mut sb, 5, 5, &[false, true, false, false], born);
    assert_eq!(kind(&sb, 5, 6), Some(ParticleType::Plant));
    assert_eq!(sb.get(6, 5), Some(born));

    // Blood is absorbed whatever the coins.
    let mut sb = Sandbox::new();
    sb.set(5, 5, Some(particle(ParticleType::Life)));
    sb.set(5, 6, Some(particle(ParticleType::Plant)));
    sb.set(5, 4, Some(particle(ParticleType::Blood)));
    update_life_with(&mut sb, 5, 5, &[false, false, false, false], born);
    assert_eq!(kind(&sb, 5, 5), Some(ParticleType::SuperLife));
    assert_eq!(kind(&sb, 5, 4), None);

    // A dead particle under more than 30 others becomes Blood on the coin.
    let mut sb = Sandbox::new();
    for y in 10..50 {
        sb.set(5, y, Some(particle(ParticleType::Iridium)));
    }
    sb.set(5, 50, Some(Particle { extra_data2: 1, ..particle(ParticleType::Life) }));
    let blood = particle(ParticleType::Blood);
    update_life_with(&mut sb, 5, 50, &[false, true, true, true], blood);
    assert_eq!(kind(&sb, 5, 50), Some(ParticleType::Life));
    update_life_with(&mut sb, 5, 50, &[true, false, false, false], blood);
    assert_eq!(sb.get(5, 50), Some(blood));
}

#[test]
fn cryotheum_counts_down_twenty_calls() {
    let mut sb = Sandbox::new();
    sb.set(100, 100, Some(with_temp(ParticleType::Cryotheum, 0)));
    sb.set(105, 100, Some(particle(ParticleType::Sand)));
    update_cryotheum(&mut sb, 100, 100);
    assert_eq!(sb.get(100, 100).unwrap().extra_data1, 21);
    for n in 1..20 {
        update_cryotheum(&mut sb, 100, 100);
        assert_eq!(sb.get(100, 100).unwrap().extra_data1, 21 - n);
        assert_eq!(sb.get(105, 100).unwrap().temperature, 0);
    }
    update_cryotheum(&mut sb, 100, 100);
    assert_eq!(sb.get(100, 100), None);
    assert_eq!(sb.get(105, 100).unwrap().temperature, -100);
}

#[test]
fn water_evaporates_exactly_as_a_double_precision_bernoulli_draw() {
    let mut sb = Sandbox::new();
    for round in 0..40 {
        for t in 100i16..=160 {
            sb.set(5, 5, Some(with_temp(ParticleType::Water, t)));
            let mut expected_rng = sb.rng.clone();
            let u = (t as f64 / 150.0).clamp(0.0, 1.0);
            let chance = (1.0 - u) * 0.3 + u * 0.7;
            let expected = expected_rng.gen_bool(chance);
            update_water(&mut sb, 5, 5);
            assert_eq!(kind(&sb, 5, 5) == Some(ParticleType::Steam), expected, "t = {}, round = {}", t, round);
            assert!(sb.rng == expected_rng);
        }
    }
    // Below 100 degrees nothing is drawn.
    sb.set(5, 5, Some(with_temp(ParticleType::Water, 99)));
    let rng = sb.rng.clone();
    update_water(&mut sb, 5, 5);
    assert!(sb.rng == rng);
}
