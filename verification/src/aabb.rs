//! Axis-aligned boxes on an integer grid.
//!
//! Coordinates are `i64` grid units; `y` grows downwards, so a box is named
//! by its top-left corner and its size. Two boxes intersect when their
//! interiors overlap: boxes that only share an edge or a corner do not.

use vstd::prelude::*;

verus! {

/// A point or an extent on the grid.
#[derive(Clone, Copy, Debug, PartialEq, Eq, Structural)]
pub struct Vec2 {
    pub x: i64,
    pub y: i64,
}

/// Builds a vector from its two components.
pub fn vec2(x: i64, y: i64) -> (v: Vec2)
    ensures
        v == (Vec2 { x, y }),
{
    Vec2 { x, y }
}

/// An axis-aligned box: its top-left corner and its size.
#[derive(Clone, Copy, Debug, PartialEq, Eq, Structural)]
pub struct Aabb {
    pub top_left: Vec2,
    pub size: Vec2,
}

/// The four quadrants of a box. Together they tile it exactly: where a side
/// is odd, the right (bottom) quadrants are one unit wider (taller).
#[derive(Clone, Copy, Debug, PartialEq, Eq, Structural)]
pub struct AabbSplitFour {
    pub top_left: Aabb,
    pub top_right: Aabb,
    pub bottom_left: Aabb,
    pub bottom_right: Aabb,
}

impl Aabb {
    /// The x coordinate of the right edge.
    pub open spec fn right(self) -> int {
        self.top_left.x + self.size.x
    }

    /// The y coordinate of the bottom edge.
    pub open spec fn bottom(self) -> int {
        self.top_left.y + self.size.y
    }

    /// The size is not negative and the bottom-right corner is on the grid.
    pub open spec fn valid(self) -> bool {
        &&& self.size.x >= 0
        &&& self.size.y >= 0
        &&& self.right() <= i64::MAX
        &&& self.bottom() <= i64::MAX
    }

    /// The interiors of the two boxes overlap.
    pub open spec fn intersects(self, other: Aabb) -> bool {
        &&& self.top_left.x < other.right()
        &&& other.top_left.x < self.right()
        &&& self.top_left.y < other.bottom()
        &&& other.top_left.y < self.bottom()
    }

    /// `other` lies inside `self`, edges included.
    pub open spec fn encloses(self, other: Aabb) -> bool {
        &&& self.top_left.x <= other.top_left.x
        &&& other.right() <= self.right()
        &&& self.top_left.y <= other.top_left.y
        &&& other.bottom() <= self.bottom()
    }

    /// The centre, rounded towards the top-left corner.
    pub open spec fn midpoint(self) -> Vec2 {
        Vec2 {
            x: (self.top_left.x + self.size.x / 2) as i64,
            y: (self.top_left.y + self.size.y / 2) as i64,
        }
    }

    /// Quadrant `k` of the box: 0 top-left, 1 top-right, 2 bottom-left,
    /// 3 bottom-right. Bit 0 of `k` picks the right half, bit 1 the bottom half.
    pub open spec fn quadrant(self, k: int) -> Aabb {
        let half_x = (self.size.x / 2) as i64;
        let half_y = (self.size.y / 2) as i64;
        let far_x = k == 1 || k == 3;
        let far_y = k == 2 || k == 3;
        Aabb {
            top_left: Vec2 {
                x: if far_x { (self.top_left.x + half_x) as i64 } else { self.top_left.x },
                y: if far_y { (self.top_left.y + half_y) as i64 } else { self.top_left.y },
            },
            size: Vec2 {
                x: if far_x { (self.size.x - half_x) as i64 } else { half_x },
                y: if far_y { (self.size.y - half_y) as i64 } else { half_y },
            },
        }
    }

    /// Doubling the size about the centre stays on the grid.
    pub open spec fn can_double(self) -> bool {
        &&& self.valid()
        &&& 2 * self.size.x <= i64::MAX
        &&& 2 * self.size.y <= i64::MAX
        &&& i64::MIN <= self.midpoint().x - self.size.x
        &&& i64::MIN <= self.midpoint().y - self.size.y
        &&& self.midpoint().x + self.size.x <= i64::MAX
        &&& self.midpoint().y + self.size.y <= i64::MAX
    }

    /// The box with the same centre and twice the size.
    pub open spec fn loosened(self) -> Aabb {
        Aabb {
            top_left: Vec2 {
                x: (self.midpoint().x - self.size.x) as i64,
                y: (self.midpoint().y - self.size.y) as i64,
            },
            size: Vec2 { x: (2 * self.size.x) as i64, y: (2 * self.size.y) as i64 },
        }
    }

    /// A box from its top-left corner and its size.
    pub fn new(top_left: Vec2, size: Vec2) -> (aabb: Aabb)
        ensures
            aabb == (Aabb { top_left, size }),
    {
        Aabb { top_left, size }
    }

    /// Whether the box is valid: its size is not negative and its
    /// bottom-right corner is on the grid.
    pub fn is_valid(&self) -> (ok: bool)
        ensures
            ok == self.valid(),
    {
        self.size.x >= 0 && self.size.y >= 0 && self.top_left.x <= i64::MAX - self.size.x
            && self.top_left.y <= i64::MAX - self.size.y
    }

    /// The centre of the box, rounded towards the top-left corner.
    pub fn centre(&self) -> (c: Vec2)
        requires
            self.valid(),
        ensures
            c == self.midpoint(),
            self.top_left.x <= c.x <= self.right(),
            self.top_left.y <= c.y <= self.bottom(),
    {
        Vec2 { x: self.top_left.x + self.size.x / 2, y: self.top_left.y + self.size.y / 2 }
    }

    /// Whether the interiors of the two boxes overlap.
    pub fn is_intersecting(&self, other: &Aabb) -> (hit: bool)
        requires
            self.valid(),
            other.valid(),
        ensures
            hit == self.intersects(*other),
    {
        self.top_left.x < other.top_left.x + other.size.x
            && other.top_left.x < self.top_left.x + self.size.x
            && self.top_left.y < other.top_left.y + other.size.y
            && other.top_left.y < self.top_left.y + self.size.y
    }

    /// Splits the box into its four quadrants.
    pub fn split_four(&self) -> (parts: AabbSplitFour)
        requires
            self.valid(),
        ensures
            parts.top_left == self.quadrant(0),
            parts.top_right == self.quadrant(1),
            parts.bottom_left == self.quadrant(2),
            parts.bottom_right == self.quadrant(3),
            forall|k: int| 0 <= k < 4 ==> (#[trigger] self.quadrant(k)).valid(),
            forall|k: int| 0 <= k < 4 ==> self.encloses(#[trigger] self.quadrant(k)),
    {
        let half_x: i64 = self.size.x / 2;
        let half_y: i64 = self.size.y / 2;
        let mid_x: i64 = self.top_left.x + half_x;
        let mid_y: i64 = self.top_left.y + half_y;
        let rest_x: i64 = self.size.x - half_x;
        let rest_y: i64 = self.size.y - half_y;
        AabbSplitFour {
            top_left: Aabb { top_left: self.top_left, size: Vec2 { x: half_x, y: half_y } },
            top_right: Aabb {
                top_left: Vec2 { x: mid_x, y: self.top_left.y },
                size: Vec2 { x: rest_x, y: half_y },
            },
            bottom_left: Aabb {
                top_left: Vec2 { x: self.top_left.x, y: mid_y },
                size: Vec2 { x: half_x, y: rest_y },
            },
            bottom_right: Aabb {
                top_left: Vec2 { x: mid_x, y: mid_y },
                size: Vec2 { x: rest_x, y: rest_y },
            },
        }
    }

    /// The box with the same centre and twice the width and height.
    pub fn double_about_centre(&self) -> (wide: Aabb)
        requires
            self.can_double(),
        ensures
            wide == self.loosened(),
            wide.valid(),
            wide.midpoint() == self.midpoint(),
            wide.encloses(*self),
    {
        let c = self.centre();
        Aabb {
            top_left: Vec2 { x: c.x - self.size.x, y: c.y - self.size.y },
            size: Vec2 { x: 2 * self.size.x, y: 2 * self.size.y },
        }
    }
}

} // verus!
