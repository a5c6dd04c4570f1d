//! Filled circle descriptor.

use vstd::prelude::*;

verus! {

/// A filled circle: center point (possibly out of bounds, clipped at fill
/// time), unsigned radius, packed color, and a flag asking the fill call to
/// recompute the center as the target buffer's midpoint.
#[derive(Debug, Clone, Copy)]
pub struct GraphikCircle {
    pub x0: i32,
    pub y0: i32,
    pub radius: usize,
    pub color: u32,
    pub center: bool,
}

impl GraphikCircle {
    pub fn new(radius: usize) -> (r: Self)
        ensures
            r == (GraphikCircle {
                x0: 0,
                y0: 0,
                radius,
                color: 0xffffffff,
                center: false,
            }),
    {
        Self { x0: 0, y0: 0, radius, color: 0xffffffff, center: false }
    }

    pub fn radius(&mut self, radius: usize) -> (r: Self)
        ensures
            *final(self) == (GraphikCircle { radius, ..*old(self) }),
            r == *final(self),
    {
        self.radius = radius;
        *self
    }

    pub fn origin(&mut self, x0: i32, y0: i32) -> (r: Self)
        ensures
            *final(self) == (GraphikCircle { x0, y0, ..*old(self) }),
            r == *final(self),
    {
        self.x0 = x0;
        self.y0 = y0;
        *self
    }

    pub fn center(&mut self, center: bool) -> (r: Self)
        ensures
            *final(self) == (GraphikCircle { center, ..*old(self) }),
            r == *final(self),
    {
        self.center = center;
        *self
    }

    pub fn color(&mut self, color: u32) -> (r: Self)
        ensures
            *final(self) == (GraphikCircle { color, ..*old(self) }),
            r == *final(self),
    {
        self.color = color;
        *self
    }
}

} // verus!
