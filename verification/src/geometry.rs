//! Plain two-dimensional values: sizes and positions.

use vstd::prelude::*;

verus! {

/// A two-dimensional size: `x` is the width, `y` the height.
#[derive(Clone, Copy, Debug, PartialEq, Eq, Structural)]
pub struct Vector2<T> {
    pub x: T,
    pub y: T,
}

/// A position: the top-left corner of a placed rectangle.
#[derive(Clone, Copy, Debug, PartialEq, Eq, Structural)]
pub struct Point2<T> {
    pub x: T,
    pub y: T,
}

/// Whether the point `(px, py)` lies in the box with top-left corner
/// `(x, y)`, width `w` and height `h`. The box holds its left and top edge,
/// not its right and bottom edge.
pub open spec fn box_holds(x: int, y: int, w: int, h: int, px: int, py: int) -> bool {
    x <= px < x + w && y <= py < y + h
}

/// Whether two boxes, each given by its top-left corner, width and height,
/// have a point in common.
pub open spec fn boxes_intersect(
    x1: int,
    y1: int,
    w1: int,
    h1: int,
    x2: int,
    y2: int,
    w2: int,
    h2: int,
) -> bool {
    &&& x1 < x2 + w2
    &&& x2 < x1 + w1
    &&& y1 < y2 + h2
    &&& y2 < y1 + h1
    &&& w1 > 0 && h1 > 0 && w2 > 0 && h2 > 0
}

/// Two boxes intersect just when some point lies in both.
pub proof fn lemma_boxes_intersect(
    x1: int,
    y1: int,
    w1: int,
    h1: int,
    x2: int,
    y2: int,
    w2: int,
    h2: int,
)
    ensures
        boxes_intersect(x1, y1, w1, h1, x2, y2, w2, h2) <==> exists|px: int, py: int|
            #[trigger] box_holds(x1, y1, w1, h1, px, py) && box_holds(x2, y2, w2, h2, px, py),
{
    if boxes_intersect(x1, y1, w1, h1, x2, y2, w2, h2) {
        let px = if x1 >= x2 { x1 } else { x2 };
        let py = if y1 >= y2 { y1 } else { y2 };
        assert(box_holds(x1, y1, w1, h1, px, py) && box_holds(x2, y2, w2, h2, px, py));
    }
}

} // verus!
