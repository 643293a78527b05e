use sandbox::particle::{Particle, ParticleType};
use rand_pcg::Pcg64;

fn particle(ptype: ParticleType) -> Particle {
    Particle { ptype, temperature: 0, extra_data1: 0, extra_data2: 0, color_offset: 0, last_update: 0 }
}

const ALL: [ParticleType; 18] = [
    ParticleType::Sand,
    ParticleType::Water,
    ParticleType::Acid,
    ParticleType::Iridium,
    ParticleType::Replicator,
    ParticleType::Plant,
    ParticleType::Cryotheum,
    ParticleType::Unstable,
    ParticleType::Electricity,
    ParticleType::Glass,
    ParticleType::Life,
    ParticleType::SuperLife,
    ParticleType::Blood,
    ParticleType::Smoke,
    ParticleType::Fire,
    ParticleType::Mirror,
    ParticleType::Steam,
    ParticleType::Glitch,
];

#[test]
fn from_index_follows_declaration_order() {
    for (i, t) in ALL.iter().enumerate() {
        assert_eq!(ParticleType::from_index(i as i32), *t);
    }
}

#[test]
fn thermal_conductivity_table() {
    let expected = [3, 5, 4, 8, 3, 3, 2, 2, 2, 2, 3, 3, 2, 6, 2, 7, 6, 2];
    for (t, tc) in ALL.iter().zip(expected.iter()) {
        let tc_got = particle(*t).thermal_conductivity();
        assert_eq!(tc_got, *tc);
        assert!(tc_got > 1);
    }
}

#[test]
fn property_tables() {
    let glowing: Vec<ParticleType> = ALL.iter().copied().filter(|t| particle(*t).is_glowing()).collect();
    assert_eq!(glowing, vec![ParticleType::Acid, ParticleType::Electricity, ParticleType::Smoke, ParticleType::Fire, ParticleType::Glitch]);
    let flammable: Vec<ParticleType> = ALL.iter().copied().filter(|t| particle(*t).is_flammable()).collect();
    assert_eq!(flammable, vec![ParticleType::Plant, ParticleType::Cryotheum, ParticleType::Life, ParticleType::Glitch]);
    let resistant: Vec<ParticleType> = ALL.iter().copied().filter(|t| !particle(*t).dissolved_by_acid()).collect();
    assert_eq!(resistant, vec![ParticleType::Acid, ParticleType::Iridium, ParticleType::Replicator, ParticleType::Glass, ParticleType::Smoke, ParticleType::Mirror]);
    let unaffected: Vec<ParticleType> = ALL.iter().copied().filter(|t| !particle(*t).affected_by_cryotheum_coldsnap()).collect();
    assert_eq!(unaffected, vec![ParticleType::Cryotheum, ParticleType::Smoke]);
    let sturdy: Vec<ParticleType> = ALL.iter().copied().filter(|t| !particle(*t).can_be_vaporized_by_unstable()).collect();
    assert_eq!(sturdy, vec![ParticleType::Iridium, ParticleType::Replicator, ParticleType::Smoke, ParticleType::Fire]);
}

#[test]
fn shimmer_intensity_rounds_a_fifth_of_the_temperature() {
    let mut p = particle(ParticleType::Unstable);
    for t in [-300i16, -1, 0, 1, 2, 3, 7, 8, 12, 13, 200, 32767] {
        p.temperature = t;
        let expected = if t > 0 { (t as f64 / 5.0).round() as i16 } else { 0 };
        assert_eq!(p.shimmer_intensity(), expected);
    }
    let mut plant = particle(ParticleType::Plant);
    plant.extra_data1 = 1;
    assert_eq!(plant.shimmer_intensity(), 10);
    plant.extra_data1 = 2;
    assert_eq!(plant.shimmer_intensity(), 5);
    assert_eq!(particle(ParticleType::Electricity).shimmer_intensity(), 200);
}

fn mirror_reference(e: i8) -> (u8, u8, u8) {
    let mut t = e as f64 / 59.0;
    let c1 = (78.0 / 255.0, 216.0 / 255.0, 131.0 / 255.0);
    let c2 = (216.0 / 255.0, 78.0 / 255.0, 163.0 / 255.0);
    let ((r1, g1, b1), (r2, g2, b2)) = if e < 60 {
        (c1, c2)
    } else {
        t = (e - 60) as f64 / 59.0;
        (c2, c1)
    };
    let r = (1.0 - t) * r1 + t * r2;
    let b = (1.0 - t) * b1 + t * b2;
    let g = (1.0 - t) * g1 + t * g2;
    ((r * 255.0) as u8, (g * 255.0) as u8, (b * 255.0) as u8)
}

#[test]
fn mirror_color_matches_the_double_precision_blend() {
    let mut rng = Pcg64::new(1, 2);
    let mut p = particle(ParticleType::Mirror);
    for e in i8::MIN..=i8::MAX {
        p.extra_data1 = e;
        assert_eq!(p.base_color(&mut rng), mirror_reference(e), "counter {}", e);
    }
    p.extra_data1 = 0;
    assert_eq!(p.base_color(&mut rng), (78, 216, 131));
    p.extra_data1 = 60;
    assert_eq!(p.base_color(&mut rng), (216, 78, 163));
}

#[test]
fn base_colors() {
    let mut rng = Pcg64::new(1, 2);
    let mut sand = particle(ParticleType::Sand);
    assert_eq!(sand.base_color(&mut rng), (196, 192, 135));
    sand.extra_data1 = 1;
    assert_eq!(sand.base_color(&mut rng), (166, 162, 105));
    let mut life = particle(ParticleType::Life);
    assert_eq!(life.base_color(&mut rng), (135, 12, 211));
    life.extra_data2 = 1;
    assert_eq!(life.base_color(&mut rng), (90, 84, 84));
    assert_eq!(particle(ParticleType::Water).base_color(&mut rng), (26, 91, 175));
    let mut grey = 0;
    let mut pink = 0;
    for _ in 0..2000 {
        match particle(ParticleType::Glitch).base_color(&mut rng) {
            (81, 80, 66) => grey += 1,
            (218, 101, 126) => pink += 1,
            other => panic!("unexpected glitch colour {:?}", other),
        }
    }
    assert!(grey > pink && pink > 0);
}

#[test]
fn new_particles_start_fresh() {
    let mut rng = Pcg64::new(0xcafef00dd15ea5e5, 0xa02bdbf7bb3c0a7ac28fa16a64abf96);
    for _ in 0..200 {
        for t in ALL.iter() {
            let p = Particle::new(*t, &mut rng);
            assert_eq!(p.ptype, *t);
            assert_eq!(p.last_update, 0);
            assert!((-10..=10).contains(&p.color_offset));
            let temp = match t {
                ParticleType::Water => -10,
                ParticleType::Cryotheum => -60,
                ParticleType::Electricity => 300,
                ParticleType::Fire => 130,
                ParticleType::Steam => 100,
                _ => 0,
            };
            assert_eq!(p.temperature, temp);
            match t {
                ParticleType::Plant => assert!((1..=17).contains(&p.extra_data1)),
                ParticleType::Smoke => assert!((70..=109).contains(&p.extra_data1)),
                ParticleType::Fire => assert!((0..=59).contains(&p.extra_data1)),
                _ => assert_eq!(p.extra_data1, 0),
            }
            assert_eq!(p.extra_data2, if *t == ParticleType::Smoke { 90 } else { 0 });
        }
    }
}

#[test]
fn random_kind_covers_all_kinds() {
    let mut rng = Pcg64::new(7, 9);
    let mut seen = [false; 18];
    for _ in 0..2000 {
        let t = ParticleType::random(&mut rng);
        let i = ALL.iter().position(|k| *k == t).unwrap();
        seen[i] = true;
    }
    assert!(seen.iter().all(|s| *s));
}
