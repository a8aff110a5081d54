//! The shelf layout as a mathematical function of the rectangle sizes.
//!
//! The layout is built shelf by shelf. A shelf starts with an anchor, the
//! tallest rectangle that is left. Beside the anchor stands a column of the
//! shortest rectangles whose heights together do not exceed the anchor's, and
//! beside each member of the column a row of the thinnest rectangles that are
//! lower than the member and together not wider than it.

use vstd::prelude::*;
use vstd::math::max;
use crate::geometry::Vector2;
use crate::order::ascending;

verus! {

/// The widths of the rectangles, in input order.
pub open spec fn widths(rects: Seq<Vector2<u32>>) -> Seq<u32> {
    rects.map_values(|r: Vector2<u32>| r.x)
}

/// The heights of the rectangles, in input order.
pub open spec fn heights(rects: Seq<Vector2<u32>>) -> Seq<u32> {
    rects.map_values(|r: Vector2<u32>| r.y)
}

/// The width of rectangle `i`; zero past the end of `rects`.
pub open spec fn width_of(rects: Seq<Vector2<u32>>, i: usize) -> int {
    if i < rects.len() {
        rects[i as int].x as int
    } else {
        0
    }
}

/// The height of rectangle `i`; zero past the end of `rects`.
pub open spec fn height_of(rects: Seq<Vector2<u32>>, i: usize) -> int {
    if i < rects.len() {
        rects[i as int].y as int
    } else {
        0
    }
}

/// Rectangle `index` with its top-left corner at `(x, y)`.
pub struct Placement {
    pub x: int,
    pub y: int,
    pub index: usize,
}

/// What has been decided so far: the rectangles still to be placed, once by
/// ascending height and once by ascending width, and the placements made.
pub struct Progress {
    pub shortest: Seq<usize>,
    pub thinnest: Seq<usize>,
    pub placed: Seq<Placement>,
}

/// Where the next anchor goes, and the height of the tallest anchor of the
/// current shelf.
pub struct Cursor {
    pub x: int,
    pub y: int,
    pub tallest: int,
}

/// The right edge of the placement that reaches furthest right; zero for none.
pub open spec fn extent_x(rects: Seq<Vector2<u32>>, placed: Seq<Placement>) -> int
    decreases placed.len(),
{
    if placed.len() == 0 {
        0
    } else {
        max(
            extent_x(rects, placed.drop_last()),
            placed.last().x + width_of(rects, placed.last().index),
        )
    }
}

/// The bottom edge of the placement that reaches furthest down; zero for none.
pub open spec fn extent_y(rects: Seq<Vector2<u32>>, placed: Seq<Placement>) -> int
    decreases placed.len(),
{
    if placed.len() == 0 {
        0
    } else {
        max(
            extent_y(rects, placed.drop_last()),
            placed.last().y + height_of(rects, placed.last().index),
        )
    }
}

/// The widths of the rectangles in `row`, added up.
pub open spec fn span(rects: Seq<Vector2<u32>>, row: Seq<usize>) -> int
    decreases row.len(),
{
    if row.len() == 0 {
        0
    } else {
        width_of(rects, row[0]) + span(rects, row.drop_first())
    }
}

/// The heights of the rectangles in `column`, added up.
pub open spec fn rise(rects: Seq<Vector2<u32>>, column: Seq<usize>) -> int
    decreases column.len(),
{
    if column.len() == 0 {
        0
    } else {
        height_of(rects, column[0]) + rise(rects, column.drop_first())
    }
}

/// The longest front part of `order` whose heights add up to at most `budget`.
pub open spec fn stack_take(rects: Seq<Vector2<u32>>, order: Seq<usize>, budget: int) -> Seq<
    usize,
>
    decreases order.len(),
{
    if order.len() == 0 || height_of(rects, order[0]) > budget {
        Seq::empty()
    } else {
        seq![order[0]] + stack_take(
            rects,
            order.drop_first(),
            budget - height_of(rects, order[0]),
        )
    }
}

/// The rectangles of `order` that go into a row: `order` is read from its
/// front, entries of `reserved` are passed over, and the reading stops at the
/// first rectangle that makes the row wider than `budget`, or that is not
/// lower than `ceiling`.
pub open spec fn row_take(
    rects: Seq<Vector2<u32>>,
    order: Seq<usize>,
    reserved: Seq<usize>,
    budget: int,
    ceiling: int,
) -> Seq<usize>
    decreases order.len(),
{
    if order.len() == 0 {
        Seq::empty()
    } else if reserved.contains(order[0]) {
        row_take(rects, order.drop_first(), reserved, budget, ceiling)
    } else if width_of(rects, order[0]) > budget || height_of(rects, order[0]) >= ceiling {
        Seq::empty()
    } else {
        seq![order[0]] + row_take(
            rects,
            order.drop_first(),
            reserved,
            budget - width_of(rects, order[0]),
            ceiling,
        )
    }
}

/// Places rectangle `index` at `(x, y)` and strikes it from both orders.
pub open spec fn put(st: Progress, x: int, y: int, index: usize) -> Progress {
    Progress {
        shortest: st.shortest.remove_value(index),
        thinnest: st.thinnest.remove_value(index),
        placed: st.placed.push(Placement { x, y, index }),
    }
}

/// Places the rectangles of `row` side by side, the first at `(x, y)`.
pub open spec fn put_row(
    rects: Seq<Vector2<u32>>,
    st: Progress,
    row: Seq<usize>,
    x: int,
    y: int,
) -> Progress
    decreases row.len(),
{
    if row.len() == 0 {
        st
    } else {
        put_row(
            rects,
            put(st, x, y, row[0]),
            row.drop_first(),
            x + width_of(rects, row[0]),
            y,
        )
    }
}

/// Places the members of `column` from number `from` on, one below the other
/// and the first of them at `(x, y)`, each with its row to the right of it.
/// The second result is the right end of the longest of these rows, or
/// `reach` if that is further right.
pub open spec fn put_column(
    rects: Seq<Vector2<u32>>,
    st: Progress,
    column: Seq<usize>,
    from: int,
    x: int,
    y: int,
    reach: int,
) -> (Progress, int)
    decreases column.len() - from,
{
    if from < 0 || from >= column.len() {
        (st, reach)
    } else {
        let member = column[from];
        let beside = x + width_of(rects, member);
        let st1 = put(st, x, y, member);
        let row = row_take(
            rects,
            st1.thinnest,
            column,
            width_of(rects, member),
            height_of(rects, member),
        );
        put_column(
            rects,
            put_row(rects, st1, row, beside, y),
            column,
            from + 1,
            x,
            y + height_of(rects, member),
            max(reach, beside + span(rects, row)),
        )
    }
}

/// Builds one shelf segment at the cursor: the anchor, its column and the
/// rows of the column. Then the cursor moves on: to the right of the segment
/// while the layout is at least as high as it is wide, else to the start of a
/// new shelf below the current one.
pub open spec fn shelf(rects: Seq<Vector2<u32>>, st: Progress, at: Cursor) -> (Progress, Cursor) {
    let anchor = st.shortest.last();
    let tallest = max(at.tallest, height_of(rects, anchor));
    let st1 = put(st, at.x, at.y, anchor);
    let column = stack_take(rects, st1.shortest, height_of(rects, anchor));
    let (st2, reach) = put_column(
        rects,
        st1,
        column,
        0,
        at.x + width_of(rects, anchor),
        at.y,
        0,
    );
    if extent_y(rects, st2.placed) >= extent_x(rects, st2.placed) {
        (st2, Cursor { x: reach, y: at.y, tallest })
    } else {
        (st2, Cursor { x: 0, y: at.y + tallest, tallest: 0 })
    }
}

/// Striking a value from a list does not make the list longer.
pub proof fn lemma_remove_value_len(s: Seq<usize>, v: usize)
    ensures
        s.remove_value(v).len() <= s.len(),
        s.contains(v) ==> s.remove_value(v).len() == s.len() - 1,
{
    s.index_of_first_ensures(v);
}

/// Placing a row leaves no more rectangles to place than there were.
pub proof fn lemma_put_row_len(
    rects: Seq<Vector2<u32>>,
    st: Progress,
    row: Seq<usize>,
    x: int,
    y: int,
)
    ensures
        put_row(rects, st, row, x, y).shortest.len() <= st.shortest.len(),
        put_row(rects, st, row, x, y).thinnest.len() <= st.thinnest.len(),
    decreases row.len(),
{
    if row.len() > 0 {
        lemma_remove_value_len(st.shortest, row[0]);
        lemma_remove_value_len(st.thinnest, row[0]);
        lemma_put_row_len(
            rects,
            put(st, x, y, row[0]),
            row.drop_first(),
            x + width_of(rects, row[0]),
            y,
        );
    }
}

/// Placing a column leaves no more rectangles to place than there were.
pub proof fn lemma_put_column_len(
    rects: Seq<Vector2<u32>>,
    st: Progress,
    column: Seq<usize>,
    from: int,
    x: int,
    y: int,
    reach: int,
)
    ensures
        put_column(rects, st, column, from, x, y, reach).0.shortest.len() <= st.shortest.len(),
        put_column(rects, st, column, from, x, y, reach).0.thinnest.len() <= st.thinnest.len(),
    decreases column.len() - from,
{
    if 0 <= from < column.len() {
        let member = column[from];
        let beside = x + width_of(rects, member);
        let st1 = put(st, x, y, member);
        let row = row_take(
            rects,
            st1.thinnest,
            column,
            width_of(rects, member),
            height_of(rects, member),
        );
        lemma_remove_value_len(st.shortest, member);
        lemma_remove_value_len(st.thinnest, member);
        lemma_put_row_len(rects, st1, row, beside, y);
        lemma_put_column_len(
            rects,
            put_row(rects, st1, row, beside, y),
            column,
            from + 1,
            x,
            y + height_of(rects, member),
            max(reach, beside + span(rects, row)),
        );
    }
}

/// A shelf segment places at least its anchor.
pub proof fn lemma_shelf_len(rects: Seq<Vector2<u32>>, st: Progress, at: Cursor)
    requires
        st.shortest.len() > 0,
    ensures
        shelf(rects, st, at).0.shortest.len() < st.shortest.len(),
{
    let anchor = st.shortest.last();
    let st1 = put(st, at.x, at.y, anchor);
    let column = stack_take(rects, st1.shortest, height_of(rects, anchor));
    assert(st.shortest.contains(anchor));
    lemma_remove_value_len(st.shortest, anchor);
    lemma_put_column_len(rects, st1, column, 0, at.x + width_of(rects, anchor), at.y, 0);
}

/// Builds shelf segments until no rectangle is left in the order by height;
/// the result is the placements in the order in which they were made.
pub open spec fn run(rects: Seq<Vector2<u32>>, st: Progress, at: Cursor) -> Seq<Placement>
    decreases st.shortest.len(),
{
    if st.shortest.len() == 0 {
        st.placed
    } else {
        proof {
            lemma_shelf_len(rects, st, at);
        }
        let (next, moved) = shelf(rects, st, at);
        run(rects, next, moved)
    }
}

/// The state before anything is placed: both orders are complete.
pub open spec fn start(rects: Seq<Vector2<u32>>) -> Progress {
    Progress {
        shortest: ascending(heights(rects)),
        thinnest: ascending(widths(rects)),
        placed: Seq::empty(),
    }
}

/// The cursor before anything is placed: the origin, on an empty shelf.
pub open spec fn origin() -> Cursor {
    Cursor { x: 0, y: 0, tallest: 0 }
}

/// The placements of the rectangles `rects`, in the order in which they are made.
pub open spec fn layout(rects: Seq<Vector2<u32>>) -> Seq<Placement> {
    run(rects, start(rects), origin())
}

/// Whether the placements can be written down in 32-bit coordinates: none of
/// them reaches beyond `u32::MAX`.
pub open spec fn in_range(rects: Seq<Vector2<u32>>, placed: Seq<Placement>) -> bool {
    &&& extent_x(rects, placed) <= u32::MAX
    &&& extent_y(rects, placed) <= u32::MAX
}

/// Whether the layout of `rects` can be written down in 32-bit coordinates.
pub open spec fn fits(rects: Seq<Vector2<u32>>) -> bool {
    in_range(rects, layout(rects))
}

} // verus!
