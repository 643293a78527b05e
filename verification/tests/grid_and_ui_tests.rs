use sandbox::cell_grid::{CellGrid, Chunk, CHUNK_SIZE};
use sandbox::particle::{Particle, ParticleType};
use sandbox::sandbox::{SANDBOX_HEIGHT, SANDBOX_WIDTH};
use sandbox::ui::{ptype_ui_color, ptype_ui_text_color};
use sandbox::wayland_csd::{Argb, CsdButtonState, CsdElement, WaylandCSDTheme};

fn particle(ptype: ParticleType) -> Particle {
    Particle { ptype, temperature: 0, extra_data1: 0, extra_data2: 0, color_offset: 0, last_update: 0 }
}

#[test]
fn ui_colors_of_the_selectable_kinds() {
    assert_eq!(ptype_ui_color(None), [26, 26, 26]);
    assert_eq!(ptype_ui_color(Some(ParticleType::Sand)), [196, 192, 135]);
    assert_eq!(ptype_ui_color(Some(ParticleType::Water)), [26, 91, 165]);
    assert_eq!(ptype_ui_color(Some(ParticleType::Acid)), [148, 219, 10]);
    assert_eq!(ptype_ui_color(Some(ParticleType::Cryotheum)), [12, 193, 255]);
    assert_eq!(ptype_ui_color(Some(ParticleType::Electricity)), [255, 244, 49]);
    assert_eq!(ptype_ui_color(Some(ParticleType::Fire)), [255, 151, 20]);
    assert_eq!(ptype_ui_color(Some(ParticleType::Glitch)), [120, 119, 100]);
    assert_eq!(ptype_ui_text_color(None), [204, 204, 204]);
    assert_eq!(ptype_ui_text_color(Some(ParticleType::Sand)), [0, 0, 0]);
    assert_eq!(ptype_ui_text_color(Some(ParticleType::Water)), [204, 204, 204]);
    assert_eq!(ptype_ui_text_color(Some(ParticleType::Mirror)), [0, 0, 0]);
    assert_eq!(ptype_ui_text_color(Some(ParticleType::Life)), [204, 204, 204]);
}

#[test]
fn title_bar_follows_the_selection() {
    let theme = WaylandCSDTheme { selected_particle: Some(ParticleType::Cryotheum) };
    assert_eq!(theme.element_color(CsdElement::Bar, true), Argb { a: 255, r: 12, g: 193, b: 255 });
    assert_eq!(theme.element_color(CsdElement::Bar, false), Argb { a: 255, r: 42, g: 223, b: 255 });
    assert_eq!(theme.element_color(CsdElement::Separator, false), Argb { a: 255, r: 0, g: 0, b: 0 });
    assert_eq!(theme.element_color(CsdElement::Text, false), Argb { a: 255, r: 30, g: 30, b: 30 });
}

#[test]
fn title_bar_buttons_dim_and_lighten() {
    let theme = WaylandCSDTheme { selected_particle: None };
    assert_eq!(theme.button_color(CsdButtonState::Idle, false, true), Argb { a: 255, r: 26, g: 26, b: 26 });
    assert_eq!(theme.button_color(CsdButtonState::Hovered, false, true), Argb { a: 255, r: 0, g: 0, b: 0 });
    assert_eq!(theme.button_color(CsdButtonState::Disabled, true, false), Argb { a: 255, r: 204, g: 204, b: 204 });
    assert_eq!(theme.button_color(CsdButtonState::Idle, true, false), Argb { a: 255, r: 234, g: 234, b: 234 });
}

#[test]
fn cell_grid_get_set_and_background() {
    let mut grid = CellGrid::new();
    assert_eq!(grid.cells.len(), SANDBOX_WIDTH * SANDBOX_HEIGHT);
    assert!(grid.cells.iter().all(|c| c.is_none()));
    grid.set(3, 4, Some(particle(ParticleType::Sand)));
    assert_eq!(grid.get(3, 4), Some(particle(ParticleType::Sand)));
    assert_eq!(grid.cells[3 * SANDBOX_HEIGHT + 4], Some(particle(ParticleType::Sand)));
    let bg = CellGrid::create_background_array(9);
    assert_eq!(bg.len(), SANDBOX_WIDTH * SANDBOX_HEIGHT * 4);
    assert!(bg.iter().all(|b| *b == 9));
}

#[test]
fn chunk_passes_cover_the_grid_in_non_touching_windows() {
    let grid = CellGrid::new();
    let mut chunks: Vec<Chunk> = Vec::new();
    grid.chunks_mut(false, false, &mut chunks);
    assert_eq!(chunks.len(), 8 * 5);
    assert_eq!((chunks[0].origin_x, chunks[0].origin_y), (-15, -15));
    assert_eq!((chunks[9].origin_x, chunks[9].origin_y), (45, 45));
    grid.chunks_mut(true, true, &mut chunks);
    assert_eq!(chunks.len(), 8 * 5 + 8 * 4);
    assert_eq!((chunks[40].origin_x, chunks[40].origin_y), (15, 15));
    let last = chunks.last().unwrap();
    assert_eq!((last.origin_x, last.origin_y), (435, 195));
    for c in &chunks {
        assert_eq!(c.cells.len(), CHUNK_SIZE * CHUNK_SIZE);
        assert_eq!(c.in_bounds.len(), CHUNK_SIZE * CHUNK_SIZE);
    }
    // The first window starts 15 cells before the grid.
    assert!(!chunks[0].in_bounds[14 * CHUNK_SIZE + 20]);
    assert!(chunks[0].in_bounds[15 * CHUNK_SIZE + 15]);
    assert!(!chunks[0].is_empty(0, 0));
    assert!(chunks[0].is_empty(15, 15));
}

#[test]
fn chunk_edits_are_written_back() {
    let mut grid = CellGrid::new();
    grid.set(20, 30, Some(particle(ParticleType::Sand)));
    let mut chunk = grid.window(15, 15);
    assert!(chunk.is_not_empty(5, 15));
    assert_eq!(chunk.get_particle(5, 15).ptype, ParticleType::Sand);
    chunk.get_mut_particle(5, 15).temperature = 42;
    chunk.swap_cells(5, 15, 5, 16);
    assert!(chunk.is_empty(5, 15));
    *chunk.get_mut_cell(0, 0) = Some(particle(ParticleType::Water));
    assert_eq!(chunk.get_cell(0, 0).map(|p| p.ptype), Some(ParticleType::Water));
    // The grid is untouched until the chunk is written back.
    assert_eq!(grid.get(20, 31), None);
    grid.write_back(&chunk);
    assert_eq!(grid.get(20, 30), None);
    assert_eq!(grid.get(20, 31).map(|p| p.temperature), Some(42));
    assert_eq!(grid.get(15, 15).map(|p| p.ptype), Some(ParticleType::Water));
    assert_eq!(grid.cells.iter().filter(|c| c.is_some()).count(), 2);
}

#[test]
fn windows_off_the_grid_write_back_only_their_grid_cells() {
    let mut grid = CellGrid::new();
    let mut chunk = grid.window(450, 250);
    assert!(!chunk.is_empty(40, 40));
    assert!(chunk.is_empty(29, 19));
    *chunk.get_mut_cell(29, 19) = Some(particle(ParticleType::Iridium));
    grid.write_back(&chunk);
    assert_eq!(grid.get(479, 269).map(|p| p.ptype), Some(ParticleType::Iridium));
    assert_eq!(grid.cells.iter().filter(|c| c.is_some()).count(), 1);
}

#[test]
fn passes_come_in_a_shuffled_order_each_once() {
    let mut rng = rand_pcg::Pcg64::new(3, 5);
    let mut orders = std::collections::HashSet::new();
    for _ in 0..50 {
        let order = sandbox::cell_grid::shuffled_passes(&mut rng);
        let mut sorted = order.to_vec();
        sorted.sort();
        assert_eq!(sorted, vec![(false, false), (false, true), (true, false), (true, true)]);
        orders.insert(order);
    }
    // The order is drawn, not fixed.
    assert!(orders.len() > 1);
}
