use vstd::prelude::*;

verus! {

/// A position on the grid: column `x`, row `y`.
#[derive(Debug, Default, Copy, Clone, PartialEq, Eq, Structural, Hash)]
pub struct Coordinates {
    pub x: u16,
    pub y: u16,
}

/// Clamps an integer into the range of `u16`.
pub open spec fn clamp_u16(v: int) -> int {
    if v < 0 {
        0
    } else if v > u16::MAX {
        u16::MAX as int
    } else {
        v
    }
}

impl Coordinates {
    /// Adds two positions axis by axis.
    pub fn add(self, rhs: Coordinates) -> (r: Coordinates)
        requires
            self.x + rhs.x <= u16::MAX,
            self.y + rhs.y <= u16::MAX,
        ensures
            r.x == self.x + rhs.x,
            r.y == self.y + rhs.y,
    {
        Coordinates { x: self.x + rhs.x, y: self.y + rhs.y }
    }

    /// Subtracts two positions axis by axis, stopping at zero.
    pub fn sub(self, rhs: Coordinates) -> (r: Coordinates)
        ensures
            r.x == clamp_u16(self.x - rhs.x),
            r.y == clamp_u16(self.y - rhs.y),
    {
        Coordinates { x: self.x.saturating_sub(rhs.x), y: self.y.saturating_sub(rhs.y) }
    }

    /// Shifts the position by a signed offset on each axis, saturating at the edges of `u16`.
    pub fn add_delta(self, dx: i8, dy: i8) -> (r: Coordinates)
        ensures
            r.x == clamp_u16(self.x + dx),
            r.y == clamp_u16(self.y + dy),
    {
        let nx: i32 = self.x as i32 + dx as i32;
        let ny: i32 = self.y as i32 + dy as i32;
        let x: u16 = if nx < 0 { 0 } else if nx > 65535 { 65535 } else { nx as u16 };
        let y: u16 = if ny < 0 { 0 } else if ny > 65535 { 65535 } else { ny as u16 };
        Coordinates { x, y }
    }
}

} // verus!
