use sandbox::game::{Game, Key, KeyAction, TARGET_TIME_PER_UPDATE};
use sandbox::particle::{Particle, ParticleType};
use sandbox::sandbox::{SANDBOX_HEIGHT, SANDBOX_WIDTH};

fn kind(game: &Game, x: usize, y: usize) -> Option<ParticleType> {
    game.sandbox.get(x, y).map(|p| p.ptype)
}

fn count(game: &Game) -> usize {
    game.sandbox.cells.iter().filter(|c| c.is_some()).count()
}

#[test]
fn new_game_defaults() {
    let game = Game::new();
    assert_eq!(game.frame_time, 0);
    assert!(!game.is_paused);
    assert!(!game.should_update_once);
    assert_eq!(game.selected_particle, Some(ParticleType::Sand));
    assert_eq!(game.brush_size, 3);
    assert_eq!(count(&game), 0);
}

#[test]
fn update_runs_one_step_per_step_time() {
    let mut game = Game::new();
    game.frame_time = 2 * TARGET_TIME_PER_UPDATE + 5;
    game.update();
    assert_eq!(game.frame_time, 5);
    // Each step advances the counter twice.
    assert_eq!(game.sandbox.update_counter, 5);
    game.frame_time = TARGET_TIME_PER_UPDATE - 1;
    game.update();
    assert_eq!(game.frame_time, TARGET_TIME_PER_UPDATE - 1);
    assert_eq!(game.sandbox.update_counter, 5);
}

#[test]
fn paused_game_only_steps_when_asked_once() {
    let mut game = Game::new();
    game.is_paused = true;
    game.frame_time = 3 * TARGET_TIME_PER_UPDATE;
    game.update();
    assert_eq!(game.frame_time, 0);
    assert_eq!(game.sandbox.update_counter, 1);

    game.should_update_once = true;
    game.frame_time = 3 * TARGET_TIME_PER_UPDATE + 1;
    game.update();
    assert_eq!(game.frame_time, 1);
    assert_eq!(game.sandbox.update_counter, 3);
    assert!(!game.should_update_once);

    // A single step asked for waits until a whole step time has passed.
    game.should_update_once = true;
    game.frame_time = 10;
    game.update();
    assert!(game.should_update_once);
    assert_eq!(game.sandbox.update_counter, 3);
}

#[test]
fn placing_a_dot_fills_the_brush_square() {
    let mut game = Game::new();
    game.place_line((10, 10), (10, 10));
    assert_eq!(count(&game), 9);
    for x in 10..13 {
        for y in 10..13 {
            assert_eq!(kind(&game, x, y), Some(ParticleType::Sand));
        }
    }
}

#[test]
fn electricity_brush_is_one_row_high() {
    let mut game = Game::new();
    game.selected_particle = Some(ParticleType::Electricity);
    game.brush_size = 4;
    game.place_line((100, 50), (100, 50));
    assert_eq!(count(&game), 4);
    for x in 100..104 {
        assert_eq!(kind(&game, x, 50), Some(ParticleType::Electricity));
    }
}

#[test]
fn placing_does_not_overwrite_particles() {
    let mut game = Game::new();
    let iridium = Particle { ptype: ParticleType::Iridium, temperature: 0, extra_data1: 0, extra_data2: 0, color_offset: 0, last_update: 0 };
    game.sandbox.set(11, 11, Some(iridium));
    game.place_line((10, 10), (10, 10));
    assert_eq!(game.sandbox.get(11, 11), Some(iridium));
    assert_eq!(count(&game), 9);
}

#[test]
fn delete_tool_clears_the_brush() {
    let mut game = Game::new();
    game.place_line((10, 10), (10, 10));
    game.selected_particle = None;
    game.brush_size = 2;
    game.place_line((10, 10), (10, 10));
    assert_eq!(count(&game), 5);
    assert_eq!(kind(&game, 10, 10), None);
    assert_eq!(kind(&game, 11, 11), None);
    assert_eq!(kind(&game, 12, 12), Some(ParticleType::Sand));
}

#[test]
fn line_connects_its_endpoints() {
    let mut game = Game::new();
    game.brush_size = 1;
    game.place_line((0, 0), (20, 0));
    assert_eq!(count(&game), 21);
    for x in 0..=20 {
        assert_eq!(kind(&game, x, 0), Some(ParticleType::Sand));
    }

    let mut game = Game::new();
    game.brush_size = 1;
    game.place_line((30, 40), (34, 30));
    assert_eq!(kind(&game, 30, 40), Some(ParticleType::Sand));
    assert_eq!(kind(&game, 34, 30), Some(ParticleType::Sand));
    // A steep line has one cell per row.
    assert_eq!(count(&game), 11);
    for y in 30..=40 {
        assert_eq!((30..=34).filter(|x| kind(&game, *x, y).is_some()).count(), 1);
    }
}

#[test]
fn brush_is_cut_at_the_grid_edge() {
    let mut game = Game::new();
    game.place_line((SANDBOX_WIDTH - 1, SANDBOX_HEIGHT - 1), (SANDBOX_WIDTH - 1, SANDBOX_HEIGHT - 1));
    assert_eq!(count(&game), 1);
    game.place_line((SANDBOX_WIDTH + 5, 3), (SANDBOX_WIDTH + 5, 3));
    assert_eq!(count(&game), 1);
}

#[test]
fn keys_change_settings() {
    let mut game = Game::new();
    assert_eq!(game.handle_key_press(Key::Escape), KeyAction::Exit);
    assert_eq!(game.handle_key_press(Key::Return), KeyAction::ToggleFullscreen);
    assert_eq!(game.handle_key_press(Key::Key1), KeyAction::ToggleUi);
    assert_eq!(game.handle_key_press(Key::Key2), KeyAction::ToggleFps);
    assert_eq!(game.handle_key_press(Key::Key3), KeyAction::ToggleProfiler);

    assert_eq!(game.handle_key_press(Key::Period), KeyAction::Nothing);
    assert!(!game.should_update_once);
    game.handle_key_press(Key::Space);
    assert!(game.is_paused);
    game.handle_key_press(Key::Period);
    assert!(game.should_update_once);
    game.handle_key_press(Key::Space);
    assert!(!game.is_paused);

    for _ in 0..20 {
        game.handle_key_press(Key::Equals);
    }
    assert_eq!(game.brush_size, 10);
    for _ in 0..20 {
        game.handle_key_press(Key::Minus);
    }
    assert_eq!(game.brush_size, 1);

    let picks = [
        (Key::D, None),
        (Key::S, Some(ParticleType::Sand)),
        (Key::W, Some(ParticleType::Water)),
        (Key::A, Some(ParticleType::Acid)),
        (Key::I, Some(ParticleType::Iridium)),
        (Key::R, Some(ParticleType::Replicator)),
        (Key::P, Some(ParticleType::Plant)),
        (Key::C, Some(ParticleType::Cryotheum)),
        (Key::U, Some(ParticleType::Unstable)),
        (Key::E, Some(ParticleType::Electricity)),
        (Key::L, Some(ParticleType::Life)),
        (Key::F, Some(ParticleType::Fire)),
        (Key::M, Some(ParticleType::Mirror)),
        (Key::G, Some(ParticleType::Glitch)),
    ];
    for (key, selected) in picks {
        assert_eq!(game.handle_key_press(key), KeyAction::Nothing);
        assert_eq!(game.selected_particle, selected);
    }
    game.handle_key_press(Key::Other);
    assert_eq!(game.selected_particle, Some(ParticleType::Glitch));
}

#[test]
fn backspace_empties_the_sandbox() {
    let mut game = Game::new();
    game.place_line((10, 10), (50, 60));
    assert!(count(&game) > 0);
    game.sandbox.update();
    assert_eq!(game.handle_key_press(Key::Back), KeyAction::Nothing);
    assert_eq!(count(&game), 0);
    assert_eq!(game.sandbox.update_counter, 1);
}
