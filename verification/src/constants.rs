//! Canvas dimensions, demo grid layout, and named packed colors.

use vstd::prelude::*;

verus! {

pub const WIDTH: usize = 800;
pub const HEIGHT: usize = 600;

pub const COLS: usize = 8 * 2;
pub const ROWS: usize = 6 * 2;

pub const CELL_WIDTH: usize = WIDTH / COLS;
pub const CELL_HEIGHT: usize = HEIGHT / ROWS;

/// A handful of named packed colors, channel order low byte = red.
#[derive(Debug, Clone, Copy)]
pub enum Colors {
    Red,
    Green,
    Blue,
    Black,
    White,
    Background,
}

impl Colors {
    /// The packed 32-bit value of this named color.
    pub open spec fn spec_value(self) -> u32 {
        match self {
            Colors::Red => 0x000000ff,
            Colors::Green => 0x0000ff00,
            Colors::Blue => 0x00ff0000,
            Colors::Black => 0x00000000,
            Colors::White => 0xffffffff,
            Colors::Background => 0xff202020,
        }
    }

    pub fn value(self) -> (v: u32)
        ensures
            v == self.spec_value(),
    {
        match self {
            Colors::Red => 0x000000ff,
            Colors::Green => 0x0000ff00,
            Colors::Blue => 0x00ff0000,
            Colors::Black => 0x00000000,
            Colors::White => 0xffffffff,
            Colors::Background => 0xff202020,
        }
    }
}

} // verus!
