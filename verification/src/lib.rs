//! A falling-sand cellular automaton: particle kinds, their movement and
//! interaction rules, temperature exchange, the rendering of the grid into an
//! RGBA frame, brush placement and the small colour tables of the interface.

pub mod rng;
pub mod particle;
pub mod sandbox;
pub mod behavior;
pub mod heap_array;
pub mod simulation;
pub mod frame;
pub mod game;
pub mod ui;
pub mod wayland_csd;
pub mod cell_grid;
