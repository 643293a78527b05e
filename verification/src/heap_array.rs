//! Buffers the size of the grid, filled with one value.

use vstd::prelude::*;
use crate::particle::Particle;
use crate::sandbox::{SANDBOX_HEIGHT, SANDBOX_WIDTH, n_cells};

verus! {

/// A grid of cells, every one holding `initial`.
pub fn create_cells_array(initial_value: Option<Particle>) -> (cells: Vec<Option<Particle>>)
    ensures
        cells@ == Seq::new(n_cells() as nat, |i: int| initial_value),
{
    let n: usize = SANDBOX_HEIGHT * SANDBOX_WIDTH;
    let mut data: Vec<Option<Particle>> = Vec::with_capacity(n);
    let mut i: usize = 0;
    while i < n
        invariant
            n == n_cells(),
            i <= n,
            data@ == Seq::new(i as nat, |j: int| initial_value),
        decreases n - i,
    {
        data.push(initial_value);
        i = i + 1;
    }
    data
}

/// A background picture of three bytes per cell, every byte `initial_value`.
pub fn create_background_array(initial_value: u8) -> (bytes: Vec<u8>)
    ensures
        bytes@ == Seq::new((3 * n_cells()) as nat, |i: int| initial_value),
{
    let n: usize = SANDBOX_HEIGHT * SANDBOX_WIDTH * 3;
    let mut data: Vec<u8> = Vec::with_capacity(n);
    let mut i: usize = 0;
    while i < n
        invariant
            n == 3 * n_cells(),
            i <= n,
            data@ == Seq::new(i as nat, |j: int| initial_value),
        decreases n - i,
    {
        data.push(initial_value);
        i = i + 1;
    }
    data
}

} // verus!
