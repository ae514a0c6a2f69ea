//! The small geometry type the rendering collaborator reads; the drawing
//! itself lives outside the verified core.
use vstd::prelude::*;

verus! {

/// A terminal coordinate or extent: column `x`, row `y`.
#[derive(Debug, Clone, Copy, PartialEq, Eq)]
pub struct Vec2 {
    pub x: u16,
    pub y: u16,
}

impl Vec2 {
    pub fn new(x: u16, y: u16) -> (r: Self)
        ensures
            r.x == x,
            r.y == y,
    {
        Vec2 { x, y }
    }
}

} // verus!
