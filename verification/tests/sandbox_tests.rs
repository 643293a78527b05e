use sandbox::heap_array::{create_background_array, create_cells_array};
use sandbox::particle::{Particle, ParticleType};
use sandbox::sandbox::{clamp, Sandbox, SANDBOX_HEIGHT, SANDBOX_WIDTH};

fn particle(ptype: ParticleType) -> Particle {
    Particle { ptype, temperature: 0, extra_data1: 0, extra_data2: 0, color_offset: 0, last_update: 0 }
}

fn with_temp(ptype: ParticleType, temperature: i16) -> Particle {
    Particle { temperature, ..particle(ptype) }
}

/// The background as the grid, stripes and vignette describe it, with the
/// vignette's rounding done in floating point.
fn expected_background() -> Vec<u8> {
    let mut bg = vec![30u8; SANDBOX_WIDTH * SANDBOX_HEIGHT * 3];
    let mut i = 0;
    for y in 0..SANDBOX_HEIGHT {
        for x in 0..SANDBOX_WIDTH {
            let (gx, gy) = (x + 2, y + 2);
            let mut v: u8 = 30;
            if gx % 7 == 0 || gy % 7 == 0 {
                v = 60;
            }
            if gx % 21 == 0 || gy % 21 == 0 {
                v = 70;
            }
            if gx % 35 == 0 || gy % 35 == 0 {
                v = 80;
            }
            if gy % 2 == 0 {
                v -= 5;
            }
            let vx = gx as isize - (SANDBOX_WIDTH as isize / 2);
            let vy = gy as isize - (SANDBOX_HEIGHT as isize / 2);
            let m = ((vx.abs() + vy.abs()) as f64 / 20.0).round() as u8;
            v -= m;
            bg[i] = v;
            bg[i + 1] = v;
            bg[i + 2] = v;
            i += 3;
        }
    }
    bg
}

#[test]
fn new_sandbox_is_empty_with_the_drawn_background() {
    let sb = Sandbox::new();
    assert_eq!(sb.cells.len(), SANDBOX_WIDTH * SANDBOX_HEIGHT);
    assert!(sb.cells.iter().all(|c| c.is_none()));
    assert_eq!(sb.update_counter, 1);
    assert_eq!(sb.background, expected_background());
}

#[test]
fn background_corners() {
    let sb = Sandbox::new();
    // Cell (0, 0): grid coordinates (2, 2), a striped row, vignette
    // (238 + 133) / 20 = 18.55, rounded to 19.
    assert_eq!(sb.background[0], 30 - 5 - 19);
    // Cell (5, 0): x + 2 = 7 is a grid line; vignette 366 / 20 = 18.3.
    assert_eq!(sb.background[15], 60 - 5 - 18);
}

#[test]
fn heap_arrays_are_filled() {
    let cells = create_cells_array(Some(particle(ParticleType::Sand)));
    assert_eq!(cells.len(), SANDBOX_WIDTH * SANDBOX_HEIGHT);
    assert!(cells.iter().all(|c| *c == Some(particle(ParticleType::Sand))));
    let bytes = create_background_array(7);
    assert_eq!(bytes.len(), SANDBOX_WIDTH * SANDBOX_HEIGHT * 3);
    assert!(bytes.iter().all(|b| *b == 7));
}

#[test]
fn cells_are_stored_column_by_column() {
    let mut sb = Sandbox::new();
    sb.set(2, 3, Some(particle(ParticleType::Sand)));
    assert_eq!(sb.cells[2 * SANDBOX_HEIGHT + 3], Some(particle(ParticleType::Sand)));
    sb.swap(2, 3, 400, 200);
    assert_eq!(sb.get(2, 3), None);
    assert_eq!(sb.get(400, 200), Some(particle(ParticleType::Sand)));
}

#[test]
fn empty_out_clears_every_cell_and_resets_the_counter() {
    let mut sb = Sandbox::new();
    sb.set(1, 1, Some(particle(ParticleType::Sand)));
    sb.set(479, 269, Some(particle(ParticleType::Water)));
    sb.update_counter = 77;
    sb.empty_out();
    assert!(sb.cells.iter().all(|c| c.is_none()));
    assert_eq!(sb.update_counter, 1);
}

#[test]
fn clamp_keeps_values_in_range() {
    assert_eq!(clamp(-5, 0, 255), 0);
    assert_eq!(clamp(300, 0, 255), 255);
    assert_eq!(clamp(17, 0, 255), 17);
    assert_eq!(clamp(3, 3, 3), 3);
}

#[test]
fn temperature_flows_from_hot_to_cold() {
    let mut sb = Sandbox::new();
    sb.set(5, 5, Some(with_temp(ParticleType::Sand, 100)));
    sb.set(5, 6, Some(with_temp(ParticleType::Water, 0)));
    let before = sb.cells.clone();
    sb.temperature_update();
    // Sand 3 + Water 5: 100 / 8 = 12 degrees move down.
    assert_eq!(sb.get(5, 5).unwrap().temperature, 88);
    assert_eq!(sb.get(5, 6).unwrap().temperature, 12);
    assert_eq!(sb.last_cells, before);
}

#[test]
fn temperature_exchange_conserves_heat() {
    let mut sb = Sandbox::new();
    let temps = [(10, 10, 250i16), (11, 10, -40), (10, 11, 7), (11, 11, 130), (12, 11, 0), (12, 12, -300)];
    for (x, y, t) in temps {
        sb.set(x, y, Some(with_temp(ParticleType::Iridium, t)));
    }
    let total = |sb: &Sandbox| -> i32 {
        sb.cells.iter().flatten().map(|p| p.temperature as i32).sum()
    };
    let before = total(&sb);
    for _ in 0..10 {
        sb.temperature_update();
        assert_eq!(total(&sb), before);
    }
    assert_eq!(sb.cells.iter().flatten().count(), temps.len());
}

#[test]
fn temperature_divides_toward_zero() {
    let mut sb = Sandbox::new();
    sb.set(5, 5, Some(with_temp(ParticleType::Glass, -7)));
    sb.set(6, 5, Some(with_temp(ParticleType::Glass, 0)));
    sb.temperature_update();
    // Glass 2 + Glass 2: -7 / 4 = -1, not -2.
    assert_eq!(sb.get(5, 5).unwrap().temperature, -6);
    assert_eq!(sb.get(6, 5).unwrap().temperature, -1);
}

#[test]
fn update_advances_the_counter_twice() {
    let mut sb = Sandbox::new();
    sb.set(5, 5, Some(particle(ParticleType::Sand)));
    sb.update();
    assert_eq!(sb.update_counter, 3);
    let p = sb.get(5, 6).unwrap();
    assert_eq!(p.ptype, ParticleType::Sand);
    assert_eq!(p.last_update, 2);
    assert_eq!(sb.get(5, 5), None);
}

#[test]
fn update_counter_skips_zero() {
    let mut sb = Sandbox::new();
    sb.update_counter = 254;
    sb.update();
    assert_eq!(sb.update_counter, 1);
    sb.update_counter = 255;
    sb.move_update();
    assert_eq!(sb.update_counter, 1);
    sb.state_update();
    assert_eq!(sb.update_counter, 2);
}

#[test]
fn a_particle_moves_once_per_pass() {
    let mut sb = Sandbox::new();
    sb.set(5, 5, Some(particle(ParticleType::Iridium)));
    sb.set(7, 5, Some(particle(ParticleType::Sand)));
    sb.move_update();
    // Columns are scanned top to bottom, but the moved Sand is stamped and
    // not moved again when the scan reaches it.
    assert_eq!(sb.get(7, 6).map(|p| p.ptype), Some(ParticleType::Sand));
    assert_eq!(sb.get(5, 5).map(|p| p.ptype), Some(ParticleType::Iridium));
}

#[test]
fn movement_keeps_the_particle_count() {
    let mut sb = Sandbox::new();
    let kinds = [ParticleType::Sand, ParticleType::Water, ParticleType::Steam, ParticleType::Glass, ParticleType::Iridium];
    for i in 0..200usize {
        let x = (i * 37) % SANDBOX_WIDTH;
        let y = (i * 13) % SANDBOX_HEIGHT;
        sb.set(x, y, Some(particle(kinds[i % kinds.len()])));
    }
    let count = |sb: &Sandbox, t: ParticleType| sb.cells.iter().flatten().filter(|p| p.ptype == t).count();
    let before: Vec<usize> = kinds.iter().map(|t| count(&sb, *t)).collect();
    for _ in 0..20 {
        sb.move_update();
        let now: Vec<usize> = kinds.iter().map(|t| count(&sb, *t)).collect();
        assert_eq!(now, before);
    }
}

#[test]
fn render_draws_background_and_particles() {
    let mut sb = Sandbox::new();
    let n = SANDBOX_WIDTH * SANDBOX_HEIGHT;
    let mut frame = vec![0u8; n * 4];
    let shimmer = vec![0i16; n];
    assert!(!sb.render(&mut frame, &shimmer));
    for i in [0usize, 1, 1000, n - 1] {
        assert_eq!(&frame[4 * i..4 * i + 3], &sb.background[3 * i..3 * i + 3]);
        assert_eq!(frame[4 * i + 3], 255);
    }

    sb.set(10, 20, Some(particle(ParticleType::Sand)));
    sb.set(11, 20, Some(Particle { color_offset: -6, ..with_temp(ParticleType::Water, -30) }));
    sb.set(12, 20, Some(particle(ParticleType::Acid)));
    let mut shimmer = vec![0i16; n];
    shimmer[20 * SANDBOX_WIDTH + 12] = 100;
    assert!(sb.render(&mut frame, &shimmer));
    let px = |x: usize, y: usize| -> [u8; 4] {
        let i = 4 * (y * SANDBOX_WIDTH + x);
        [frame[i], frame[i + 1], frame[i + 2], frame[i + 3]]
    };
    assert_eq!(px(10, 20), [196, 192, 135, 255]);
    // Cold water: blue + 30, green + 1, then the colour offset.
    assert_eq!(px(11, 20), [20, 86, 199, 255]);
    // Acid glows (alpha 0) and the shimmer brightens it, clamped at 255.
    assert_eq!(px(12, 20), [238, 255, 100, 0]);
}

#[test]
fn render_adds_foam_and_fire_hue() {
    let mut sb = Sandbox::new();
    let n = SANDBOX_WIDTH * SANDBOX_HEIGHT;
    sb.set(50, 100, Some(particle(ParticleType::Water)));
    sb.set(50, 101, Some(particle(ParticleType::Water)));
    sb.set(60, 100, Some(Particle { extra_data1: 10, extra_data2: 9, ..with_temp(ParticleType::Fire, 0) }));
    sb.set(70, 100, Some(with_temp(ParticleType::Electricity, 300)));
    let mut frame = vec![0u8; n * 4];
    let shimmer = vec![0i16; n];
    assert!(sb.render(&mut frame, &shimmer));
    let px = |x: usize, y: usize| -> [u8; 4] {
        let i = 4 * (y * SANDBOX_WIDTH + x);
        [frame[i], frame[i + 1], frame[i + 2], frame[i + 3]]
    };
    assert_eq!(px(50, 100), [61, 126, 210, 255]);
    assert_eq!(px(50, 101), [26, 91, 175, 255]);
    assert_eq!(px(60, 100), [234, 93, 1, 0]);
    // Electricity is not tinted by its temperature.
    assert_eq!(px(70, 100), [247, 244, 49, 0]);
}

#[test]
fn render_leaves_a_longer_frame_tail_and_the_generator_alone() {
    let mut sb = Sandbox::new();
    let n = SANDBOX_WIDTH * SANDBOX_HEIGHT;
    sb.set(3, 4, Some(particle(ParticleType::Sand)));
    sb.set(7, 8, Some(particle(ParticleType::Acid)));
    let mut frame = vec![9u8; n * 4 + 16];
    let shimmer = vec![0i16; n];
    let rng = sb.rng.clone();
    assert!(sb.render(&mut frame, &shimmer));
    assert!(frame[n * 4..].iter().all(|b| *b == 9));
    assert_eq!(frame.len(), n * 4 + 16);
    // No Glitch particle: nothing was drawn from the generator.
    assert!(sb.rng == rng);
    let i = 4 * (4 * SANDBOX_WIDTH + 3);
    assert_eq!(&frame[i..i + 4], &[196, 192, 135, 255]);
}

#[test]
fn movement_keeps_every_temperature() {
    let mut sb = Sandbox::new();
    let kinds = [ParticleType::Sand, ParticleType::Water, ParticleType::Steam, ParticleType::Fire, ParticleType::Life];
    for i in 0..150usize {
        let x = (i * 41) % SANDBOX_WIDTH;
        let y = (i * 17) % SANDBOX_HEIGHT;
        sb.set(x, y, Some(with_temp(kinds[i % kinds.len()], (i as i16) * 3 - 200)));
    }
    let census = |sb: &Sandbox| {
        let mut v: Vec<(u8, i16)> = sb.cells.iter().flatten().map(|p| (p.ptype as u8, p.temperature)).collect();
        v.sort();
        v
    };
    let before = census(&sb);
    for _ in 0..20 {
        sb.move_update();
        assert_eq!(census(&sb), before);
    }
}

#[test]
fn well_formedness_is_checked() {
    let mut sb = Sandbox::new();
    assert!(sb.is_well_formed());
    sb.set(3, 3, Some(Particle { extra_data1: 3, ..particle(ParticleType::Electricity) }));
    assert!(sb.is_well_formed());
    sb.set(4, 4, Some(Particle { extra_data1: 4, ..particle(ParticleType::Electricity) }));
    assert!(!sb.is_well_formed());
    sb.set(4, 4, Some(Particle { extra_data1: 4, ..particle(ParticleType::Sand) }));
    assert!(sb.is_well_formed());
    sb.cells.pop();
    assert!(!sb.is_well_formed());
}
