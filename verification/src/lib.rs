pub mod frontier;
pub mod graph;
pub mod paths;
pub mod a_star;
pub mod grid_world;

use vstd::prelude::*;

verus! {

/// An RGB colour value, used as the cell label of a grid world map.
#[derive(Clone, Copy, Debug, PartialEq, Eq, Structural)]
pub struct Color {
    pub r: u8,
    pub g: u8,
    pub b: u8,
}

impl Default for Color {
    /// The default colour is black.
    fn default() -> (c: Color)
        ensures
            c.r == 0 && c.g == 0 && c.b == 0,
    {
        Color { r: 0, g: 0, b: 0 }
    }
}

} // verus!
