//! Where a box belongs in a quadtree over a region, as plain geometry.
//!
//! A box sinks from a region into the quadrant that holds its centre for as
//! long as it is no larger than half the region on both axes. A query follows
//! it down only through quadrants whose doubled box the query overlaps.

use vstd::prelude::*;
use crate::aabb::{Aabb, Vec2};

verus! {

/// The largest width and height of a world: doubling any part of such a world
/// about its centre stays on the grid.
pub const MAX_EXTENT: i64 = 0x3fff_ffff_ffff_ffff;

/// No box sinks deeper than this below the root of a world of at most
/// `MAX_EXTENT` a side.
pub const MAX_DEPTH: usize = 62;

/// The region that a world of the given size covers: it starts at the origin.
pub open spec fn world_box(size: Vec2) -> Aabb {
    Aabb { top_left: Vec2 { x: 0, y: 0 }, size }
}

/// A valid region inside the largest world.
pub open spec fn in_bounds(region: Aabb) -> bool {
    &&& region.valid()
    &&& region.top_left.x >= 0
    &&& region.top_left.y >= 0
    &&& region.right() <= MAX_EXTENT
    &&& region.bottom() <= MAX_EXTENT
}

/// The centre of `aabb` lies in `region`, whose right and bottom edges do not
/// count.
pub open spec fn anchored(region: Aabb, aabb: Aabb) -> bool {
    &&& region.top_left.x <= aabb.midpoint().x < region.right()
    &&& region.top_left.y <= aabb.midpoint().y < region.bottom()
}

/// `aabb` is handed on from `region` to one of its quadrants: it is no larger
/// than half the region on both axes, and the region can still be halved on
/// one of them.
pub open spec fn descends(region: Aabb, aabb: Aabb) -> bool {
    let half_x = region.size.x / 2;
    let half_y = region.size.y / 2;
    &&& aabb.size.x <= half_x
    &&& aabb.size.y <= half_y
    &&& (half_x > 0 || half_y > 0)
}

/// The quadrant of `region` that the centre of `aabb` selects: 0 top-left,
/// 1 top-right, 2 bottom-left, 3 bottom-right.
pub open spec fn quadrant_of(region: Aabb, aabb: Aabb) -> int {
    let c = aabb.midpoint();
    let far_x: int = if c.x - region.top_left.x < region.size.x / 2 { 0 } else { 1 };
    let far_y: int = if c.y - region.top_left.y < region.size.y / 2 { 0 } else { 2 };
    far_x + far_y
}

/// A query for `q` that starts at `region` reaches the place where `aabb`
/// comes to rest: every quadrant on the way down, doubled about its centre,
/// intersects `q`.
pub open spec fn visible(region: Aabb, aabb: Aabb, q: Aabb) -> bool
    decreases region.size.x + region.size.y,
{
    if region.valid() && descends(region, aabb) {
        let part = region.quadrant(quadrant_of(region, aabb));
        part.loosened().intersects(q) && visible(part, aabb, q)
    } else {
        true
    }
}

/// A query for `q` over a tree on `world` reports a stored `aabb`: the two
/// intersect and the query reaches the box.
pub open spec fn reported(world: Aabb, aabb: Aabb, q: Aabb) -> bool {
    aabb.intersects(q) && visible(world, aabb, q)
}

/// A query reports a box that sinks from a region if the doubled quadrant
/// that the box sinks into intersects the query and the query reports the
/// box from that quadrant on.
pub proof fn lemma_reported_step(region: Aabb, aabb: Aabb, q: Aabb)
    requires
        region.valid(),
        descends(region, aabb),
    ensures
        reported(region, aabb, q) == (region.quadrant(
            quadrant_of(region, aabb),
        ).loosened().intersects(q) && reported(
            region.quadrant(quadrant_of(region, aabb)),
            aabb,
            q,
        )),
{
}

/// A quadrant of a region in bounds is in bounds, can be doubled, and is no
/// larger than the region.
pub proof fn lemma_quadrant_in_bounds(region: Aabb, k: int)
    requires
        in_bounds(region),
        0 <= k < 4,
    ensures
        in_bounds(region.quadrant(k)),
        region.quadrant(k).can_double(),
        region.encloses(region.quadrant(k)),
        region.quadrant(k).size.x <= region.size.x,
        region.quadrant(k).size.y <= region.size.y,
        region.quadrant(k).size.x == region.size.x / 2 || region.quadrant(k).size.x
            == region.size.x - region.size.x / 2,
        region.quadrant(k).size.y == region.size.y / 2 || region.quadrant(k).size.y
            == region.size.y - region.size.y / 2,
{
}

/// A box that sinks into a quadrant and whose centre lies in the region is
/// enclosed by the doubled quadrant, and its centre lies in the quadrant.
pub proof fn lemma_loose_fit(region: Aabb, aabb: Aabb)
    requires
        in_bounds(region),
        aabb.valid(),
        anchored(region, aabb),
        descends(region, aabb),
    ensures
        anchored(region.quadrant(quadrant_of(region, aabb)), aabb),
        region.quadrant(quadrant_of(region, aabb)).loosened().encloses(aabb),
{
}

/// A query that intersects a box whose centre lies in the region reaches it.
pub proof fn lemma_anchored_visible(region: Aabb, aabb: Aabb, q: Aabb)
    requires
        in_bounds(region),
        aabb.valid(),
        anchored(region, aabb),
        aabb.intersects(q),
    ensures
        visible(region, aabb, q),
    decreases region.size.x + region.size.y,
{
    if descends(region, aabb) {
        let k = quadrant_of(region, aabb);
        let part = region.quadrant(k);
        lemma_quadrant_in_bounds(region, k);
        lemma_loose_fit(region, aabb);
        lemma_anchored_visible(part, aabb, q);
    }
}

} // verus!
