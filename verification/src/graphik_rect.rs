//! Axis-aligned filled rectangle descriptor.

use vstd::prelude::*;

verus! {

/// A filled rectangle: top-left origin (possibly negative, clipped at fill
/// time), unsigned extent, packed color, and a flag asking the fill call to
/// recompute the origin so the rectangle is centered in the target buffer.
#[derive(Debug, Clone, Copy)]
pub struct GraphikRect {
    pub x0: i32,
    pub y0: i32,
    pub width: usize,
    pub height: usize,
    pub color: u32,
    pub center: bool,
}

impl GraphikRect {
    pub fn new(width: usize, height: usize) -> (r: Self)
        ensures
            r == (GraphikRect {
                x0: 0,
                y0: 0,
                width,
                height,
                color: 0xffffffff,
                center: false,
            }),
    {
        Self { x0: 0, y0: 0, width, height, color: 0xffffffff, center: false }
    }

    pub fn origin(&mut self, x0: i32, y0: i32) -> (r: Self)
        ensures
            *final(self) == (GraphikRect { x0, y0, ..*old(self) }),
            r == *final(self),
    {
        self.x0 = x0;
        self.y0 = y0;
        *self
    }

    pub fn center(&mut self, center: bool) -> (r: Self)
        ensures
            *final(self) == (GraphikRect { center, ..*old(self) }),
            r == *final(self),
    {
        self.center = center;
        *self
    }

    pub fn color(&mut self, color: u32) -> (r: Self)
        ensures
            *final(self) == (GraphikRect { color, ..*old(self) }),
            r == *final(self),
    {
        self.color = color;
        *self
    }
}

} // verus!
