//! Line segment descriptor.

use vstd::prelude::*;

verus! {

use crate::constants::HEIGHT;
use crate::constants::WIDTH;

/// A line segment between two signed endpoints, with a packed color and
/// placement flags: at most one of `horizontal`/`vertical` is meaningful,
/// and `center` combined with one of them asks the draw call to recompute
/// the fixed axis as the buffer midpoint.
#[derive(Debug, Clone, Copy)]
pub struct GraphikLine {
    pub x0: i32,
    pub y0: i32,
    pub x1: i32,
    pub y1: i32,
    pub color: u32,
    pub horizontal: bool,
    pub vertical: bool,
    pub center: bool,
}

impl GraphikLine {
    pub fn new() -> (r: Self)
        ensures
            r == (GraphikLine {
                x0: 0,
                y0: 0,
                x1: WIDTH as i32,
                y1: HEIGHT as i32,
                color: 0,
                horizontal: false,
                vertical: false,
                center: false,
            }),
    {
        Self {
            x0: 0,
            y0: 0,
            x1: WIDTH as i32,
            y1: HEIGHT as i32,
            color: 0,
            horizontal: false,
            vertical: false,
            center: false,
        }
    }

    pub fn start(&mut self, x0: i32, y0: i32) -> (r: Self)
        ensures
            *final(self) == (GraphikLine { x0, y0, ..*old(self) }),
            r == *final(self),
    {
        self.x0 = x0;
        self.y0 = y0;
        *self
    }

    pub fn end(&mut self, x1: i32, y1: i32) -> (r: Self)
        ensures
            *final(self) == (GraphikLine { x1, y1, ..*old(self) }),
            r == *final(self),
    {
        self.x1 = x1;
        self.y1 = y1;
        *self
    }

    /// A horizontal segment at height `y` from `x0` to `x1`; clears the
    /// `vertical` and `center` flags.
    pub fn horizontal(&mut self, y: i32, x0: i32, x1: i32) -> (r: Self)
        ensures
            *final(self) == (GraphikLine {
                horizontal: true,
                vertical: false,
                center: false,
                y0: y,
                y1: y,
                x0,
                x1,
                ..*old(self)
            }),
            r == *final(self),
    {
        self.horizontal = true;
        self.vertical = false;
        self.center = false;
        self.y0 = y;
        self.y1 = y;
        self.x0 = x0;
        self.x1 = x1;
        *self
    }

    /// A vertical segment at column `x` from `y0` to `y1`; clears the
    /// `horizontal` and `center` flags.
    pub fn vertical(&mut self, x: i32, y0: i32, y1: i32) -> (r: Self)
        ensures
            *final(self) == (GraphikLine {
                vertical: true,
                horizontal: false,
                center: false,
                x0: x,
                x1: x,
                y0,
                y1,
                ..*old(self)
            }),
            r == *final(self),
    {
        self.vertical = true;
        self.horizontal = false;
        self.center = false;
        self.x0 = x;
        self.x1 = x;
        self.y0 = y0;
        self.y1 = y1;
        *self
    }

    /// A horizontal segment whose height is recomputed as the buffer
    /// midpoint at draw time.
    pub fn horizontal_center(&mut self, x0: i32, x1: i32) -> (r: Self)
        ensures
            *final(self) == (GraphikLine {
                horizontal: true,
                vertical: false,
                center: true,
                x0,
                x1,
                ..*old(self)
            }),
            r == *final(self),
    {
        self.horizontal = true;
        self.vertical = false;
        self.center = true;
        self.x0 = x0;
        self.x1 = x1;
        *self
    }

    /// A vertical segment whose column is recomputed as the buffer midpoint
    /// at draw time.
    pub fn vertical_center(&mut self, y0: i32, y1: i32) -> (r: Self)
        ensures
            *final(self) == (GraphikLine {
                vertical: true,
                horizontal: false,
                center: true,
                y0,
                y1,
                ..*old(self)
            }),
            r == *final(self),
    {
        self.vertical = true;
        self.horizontal = false;
        self.center = true;
        self.y0 = y0;
        self.y1 = y1;
        *self
    }

    pub fn color(&mut self, color: u32) -> (r: Self)
        ensures
            *final(self) == (GraphikLine { color, ..*old(self) }),
            r == *final(self),
    {
        self.color = color;
        *self
    }
}

} // verus!
