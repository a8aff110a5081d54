//! No two placed rectangles overlap.
//!
//! Every new rectangle goes to the right of and below a corner that all
//! earlier rectangles keep clear of: they end to the left of the corner or
//! above it. The lemmas follow the layout from a single placement up to the
//! whole run.

use vstd::prelude::*;
use vstd::math::max;
use crate::consistency::{
    consistent, lemma_keys, lemma_put_consistent, lemma_shelf_consistent, lemma_stack_take,
    lemma_start_consistent,
};
use crate::geometry::{boxes_intersect, Vector2};
use crate::growth::{
    lemma_extent_is_maximum, lemma_put_column_grows, lemma_put_row_grows,
};
use crate::layout::{
    extent_x, extent_y, height_of, heights, layout, lemma_put_column_len, lemma_shelf_len, origin,
    put, put_column, put_row, rise, row_take, run, shelf, span, stack_take, start, width_of,
    Cursor, Placement, Progress,
};

verus! {

/// The right edge of a placed rectangle.
pub open spec fn right(rects: Seq<Vector2<u32>>, p: Placement) -> int {
    p.x + width_of(rects, p.index)
}

/// The bottom edge of a placed rectangle.
pub open spec fn bottom(rects: Seq<Vector2<u32>>, p: Placement) -> int {
    p.y + height_of(rects, p.index)
}

/// Whether two placed rectangles share a point. A rectangle covers the
/// points from its top-left corner up to, but not including, its right and
/// bottom edges.
pub open spec fn overlap(rects: Seq<Vector2<u32>>, p: Placement, q: Placement) -> bool {
    boxes_intersect(
        p.x,
        p.y,
        width_of(rects, p.index),
        height_of(rects, p.index),
        q.x,
        q.y,
        width_of(rects, q.index),
        height_of(rects, q.index),
    )
}

/// Whether no two of the placements overlap.
pub open spec fn separate(rects: Seq<Vector2<u32>>, placed: Seq<Placement>) -> bool {
    forall|j: int, k: int|
        0 <= j < placed.len() && 0 <= k < placed.len() && j != k ==> !overlap(
            rects,
            #[trigger] placed[j],
            #[trigger] placed[k],
        )
}

/// Whether no placement lies left of or above the origin.
pub open spec fn positive(placed: Seq<Placement>) -> bool {
    forall|k: int| 0 <= k < placed.len() ==> (#[trigger] placed[k]).x >= 0 && placed[k].y >= 0
}

/// Whether every placement ends to the left of `x` or above `y`.
pub open spec fn clear_of(rects: Seq<Vector2<u32>>, placed: Seq<Placement>, x: int, y: int) -> bool {
    forall|k: int|
        0 <= k < placed.len() ==> right(rects, #[trigger] placed[k]) <= x || bottom(
            rects,
            placed[k],
        ) <= y
}

/// Whether the placements from number `from` on lie in the box between
/// `(left, top)` and `(far, floor)`.
pub open spec fn within(
    rects: Seq<Vector2<u32>>,
    placed: Seq<Placement>,
    from: int,
    left: int,
    top: int,
    far: int,
    floor: int,
) -> bool {
    forall|k: int|
        from <= k < placed.len() ==> (#[trigger] placed[k]).x >= left && placed[k].y >= top
            && right(rects, placed[k]) <= far && bottom(rects, placed[k]) <= floor
}

/// Whether the placements leave room at the cursor: each lies above the
/// current shelf, or in it and to the left of the cursor.
pub open spec fn settled(rects: Seq<Vector2<u32>>, placed: Seq<Placement>, at: Cursor) -> bool {
    forall|k: int|
        0 <= k < placed.len() ==> bottom(rects, #[trigger] placed[k]) <= at.y || (bottom(
            rects,
            placed[k],
        ) <= at.y + at.tallest && right(rects, placed[k]) <= at.x)
}

/// Widths add up to no less than zero.
pub proof fn lemma_span_positive(rects: Seq<Vector2<u32>>, row: Seq<usize>)
    ensures
        span(rects, row) >= 0,
    decreases row.len(),
{
    if row.len() > 0 {
        lemma_span_positive(rects, row.drop_first());
    }
}

/// Heights add up to no less than zero.
pub proof fn lemma_rise_positive(rects: Seq<Vector2<u32>>, column: Seq<usize>)
    ensures
        rise(rects, column) >= 0,
    decreases column.len(),
{
    if column.len() > 0 {
        lemma_rise_positive(rects, column.drop_first());
    }
}

/// What `stack_take` takes is no higher than the budget.
pub proof fn lemma_stack_take_rise(rects: Seq<Vector2<u32>>, order: Seq<usize>, budget: int)
    requires
        budget >= 0,
    ensures
        rise(rects, stack_take(rects, order, budget)) <= budget,
    decreases order.len(),
{
    if order.len() == 0 || height_of(rects, order[0]) > budget {
    } else {
        let rest = stack_take(rects, order.drop_first(), budget - height_of(rects, order[0]));
        lemma_stack_take_rise(rects, order.drop_first(), budget - height_of(rects, order[0]));
        assert((seq![order[0]] + rest).drop_first() =~= rest);
    }
}

/// What `row_take` takes is lower than the ceiling, and no wider than the budget.
pub proof fn lemma_row_take_bounds(
    rects: Seq<Vector2<u32>>,
    order: Seq<usize>,
    reserved: Seq<usize>,
    budget: int,
    ceiling: int,
)
    requires
        budget >= 0,
    ensures
        forall|k: int|
            0 <= k < row_take(rects, order, reserved, budget, ceiling).len() ==> height_of(
                rects,
                #[trigger] row_take(rects, order, reserved, budget, ceiling)[k],
            ) < ceiling,
        span(rects, row_take(rects, order, reserved, budget, ceiling)) <= budget,
    decreases order.len(),
{
    let row = row_take(rects, order, reserved, budget, ceiling);
    if order.len() == 0 {
    } else if reserved.contains(order[0]) {
        lemma_row_take_bounds(rects, order.drop_first(), reserved, budget, ceiling);
    } else if width_of(rects, order[0]) > budget || height_of(rects, order[0]) >= ceiling {
    } else {
        let rest = row_take(
            rects,
            order.drop_first(),
            reserved,
            budget - width_of(rects, order[0]),
            ceiling,
        );
        lemma_row_take_bounds(
            rects,
            order.drop_first(),
            reserved,
            budget - width_of(rects, order[0]),
            ceiling,
        );
        assert(row.drop_first() =~= rest);
        assert forall|k: int| 0 <= k < row.len() implies height_of(rects, #[trigger] row[k])
            < ceiling by {
            if k > 0 {
                assert(row[k] == rest[k - 1]);
            }
        }
    }
}

/// A rectangle placed at a corner that all others keep clear of overlaps none of them.
pub proof fn lemma_put_separate(
    rects: Seq<Vector2<u32>>,
    st: Progress,
    x: int,
    y: int,
    index: usize,
)
    requires
        separate(rects, st.placed),
        positive(st.placed),
        clear_of(rects, st.placed, x, y),
        x >= 0,
        y >= 0,
    ensures
        separate(rects, put(st, x, y, index).placed),
        positive(put(st, x, y, index).placed),
{
    let next = put(st, x, y, index).placed;
    assert forall|k: int| 0 <= k < next.len() implies (#[trigger] next[k]).x >= 0 && next[k].y
        >= 0 by {
        if k < st.placed.len() {
            assert(next[k] == st.placed[k]);
        }
    }
    assert forall|j: int, k: int| 0 <= j < next.len() && 0 <= k < next.len() && j != k implies !overlap(
        rects,
        #[trigger] next[j],
        #[trigger] next[k],
    ) by {
        if j < st.placed.len() {
            assert(next[j] == st.placed[j]);
        }
        if k < st.placed.len() {
            assert(next[k] == st.placed[k]);
        }
    }
}

/// A row placed at a corner that all others keep clear of overlaps none of
/// them, and lies to the right of and below the corner.
pub proof fn lemma_put_row_separate(
    rects: Seq<Vector2<u32>>,
    st: Progress,
    row: Seq<usize>,
    x: int,
    y: int,
    ceiling: int,
)
    requires
        separate(rects, st.placed),
        positive(st.placed),
        clear_of(rects, st.placed, x, y),
        x >= 0,
        y >= 0,
        forall|k: int| 0 <= k < row.len() ==> height_of(rects, #[trigger] row[k]) <= ceiling,
    ensures
        separate(rects, put_row(rects, st, row, x, y).placed),
        positive(put_row(rects, st, row, x, y).placed),
        within(
            rects,
            put_row(rects, st, row, x, y).placed,
            st.placed.len() as int,
            x,
            y,
            x + span(rects, row),
            y + ceiling,
        ),
    decreases row.len(),
{
    if row.len() > 0 {
        let st1 = put(st, x, y, row[0]);
        let rest = row.drop_first();
        let beside = x + width_of(rects, row[0]);
        let done = put_row(rects, st1, rest, beside, y);
        lemma_put_separate(rects, st, x, y, row[0]);
        assert forall|k: int| 0 <= k < st1.placed.len() implies right(
            rects,
            #[trigger] st1.placed[k],
        ) <= beside || bottom(rects, st1.placed[k]) <= y by {
            if k < st.placed.len() {
                assert(st1.placed[k] == st.placed[k]);
            }
        }
        assert forall|k: int| 0 <= k < rest.len() implies height_of(rects, #[trigger] rest[k])
            <= ceiling by {
            assert(rest[k] == row[k + 1]);
        }
        lemma_put_row_separate(rects, st1, rest, beside, y, ceiling);
        lemma_put_row_grows(rects, st1, rest, beside, y);
        lemma_span_positive(rects, rest);
        assert(height_of(rects, row[0]) <= ceiling);
        assert forall|k: int| st.placed.len() <= k < done.placed.len() implies (
        #[trigger] done.placed[k]).x >= x && done.placed[k].y >= y && right(rects, done.placed[k])
            <= x + span(rects, row) && bottom(rects, done.placed[k]) <= y + ceiling by {
            if k == st.placed.len() {
                assert(done.placed[k] == st1.placed[k]);
            }
        }
    }
}

/// A column placed at a corner that all others keep clear of overlaps none
/// of them, and lies to the right of and below the corner, above the height
/// of its members and to the left of the reach that is returned.
pub proof fn lemma_put_column_separate(
    rects: Seq<Vector2<u32>>,
    st: Progress,
    column: Seq<usize>,
    from: int,
    x: int,
    y: int,
    reach: int,
)
    requires
        separate(rects, st.placed),
        positive(st.placed),
        clear_of(rects, st.placed, x, y),
        x >= 0,
        y >= 0,
        0 <= from <= column.len(),
    ensures
        separate(rects, put_column(rects, st, column, from, x, y, reach).0.placed),
        positive(put_column(rects, st, column, from, x, y, reach).0.placed),
        put_column(rects, st, column, from, x, y, reach).1 >= reach,
        from < column.len() ==> put_column(rects, st, column, from, x, y, reach).1 >= x,
        within(
            rects,
            put_column(rects, st, column, from, x, y, reach).0.placed,
            st.placed.len() as int,
            x,
            y,
            put_column(rects, st, column, from, x, y, reach).1,
            y + rise(rects, column.skip(from)),
        ),
    decreases column.len() - from,
{
    if from < column.len() {
        let member = column[from];
        let beside = x + width_of(rects, member);
        let below = y + height_of(rects, member);
        let st1 = put(st, x, y, member);
        let row = row_take(
            rects,
            st1.thinnest,
            column,
            width_of(rects, member),
            height_of(rects, member),
        );
        let st2 = put_row(rects, st1, row, beside, y);
        let reach2 = max(reach, beside + span(rects, row));
        let (done, far) = put_column(rects, st2, column, from + 1, x, below, reach2);
        lemma_put_separate(rects, st, x, y, member);
        assert forall|k: int| 0 <= k < st1.placed.len() implies right(
            rects,
            #[trigger] st1.placed[k],
        ) <= beside || bottom(rects, st1.placed[k]) <= y by {
            if k < st.placed.len() {
                assert(st1.placed[k] == st.placed[k]);
            }
        }
        lemma_row_take_bounds(
            rects,
            st1.thinnest,
            column,
            width_of(rects, member),
            height_of(rects, member),
        );
        lemma_put_row_separate(rects, st1, row, beside, y, height_of(rects, member));
        lemma_put_row_grows(rects, st1, row, beside, y);
        lemma_span_positive(rects, row);
        assert forall|k: int| 0 <= k < st2.placed.len() implies right(
            rects,
            #[trigger] st2.placed[k],
        ) <= x || bottom(rects, st2.placed[k]) <= below by {
            if k < st.placed.len() {
                assert(st2.placed[k] == st1.placed[k]);
                assert(st1.placed[k] == st.placed[k]);
            } else if k == st.placed.len() {
                assert(st2.placed[k] == st1.placed[k]);
            }
        }
        lemma_put_column_separate(rects, st2, column, from + 1, x, below, reach2);
        lemma_put_column_grows(rects, st2, column, from + 1, x, below, reach2);
        assert(column.skip(from).drop_first() =~= column.skip(from + 1));
        assert(column.skip(from)[0] == member);
        lemma_rise_positive(rects, column.skip(from + 1));
        assert forall|k: int| st.placed.len() <= k < done.placed.len() implies (
        #[trigger] done.placed[k]).x >= x && done.placed[k].y >= y && right(rects, done.placed[k])
            <= far && bottom(rects, done.placed[k]) <= y + rise(rects, column.skip(from)) by {
            if k < st2.placed.len() {
                assert(done.placed[k] == st2.placed[k]);
                if k == st.placed.len() {
                    assert(st2.placed[k] == st1.placed[k]);
                }
            }
        }
    } else {
        assert(column.skip(from) =~= Seq::<usize>::empty());
    }
}

/// A shelf segment built at a cursor with room overlaps nothing, and leaves
/// room at the cursor that it moves to while rectangles are left.
pub proof fn lemma_shelf_separate(rects: Seq<Vector2<u32>>, st: Progress, at: Cursor)
    requires
        consistent(rects, st),
        st.shortest.len() > 0,
        separate(rects, st.placed),
        positive(st.placed),
        settled(rects, st.placed, at),
        at.x >= 0,
        at.y >= 0,
        at.tallest >= 0,
    ensures
        separate(rects, shelf(rects, st, at).0.placed),
        positive(shelf(rects, st, at).0.placed),
        shelf(rects, st, at).1.x >= 0,
        shelf(rects, st, at).1.y >= 0,
        shelf(rects, st, at).1.tallest >= 0,
        shelf(rects, st, at).0.shortest.len() > 0 ==> settled(
            rects,
            shelf(rects, st, at).0.placed,
            shelf(rects, st, at).1,
        ),
        within(
            rects,
            shelf(rects, st, at).0.placed,
            st.placed.len() as int,
            at.x,
            at.y,
            max(
                at.x + width_of(rects, st.shortest.last()),
                put_column(
                    rects,
                    put(st, at.x, at.y, st.shortest.last()),
                    stack_take(
                        rects,
                        put(st, at.x, at.y, st.shortest.last()).shortest,
                        height_of(rects, st.shortest.last()),
                    ),
                    0,
                    at.x + width_of(rects, st.shortest.last()),
                    at.y,
                    0,
                ).1,
            ),
            at.y + height_of(rects, st.shortest.last()),
        ),
{
    let anchor = st.shortest.last();
    let high = height_of(rects, anchor);
    let tallest = max(at.tallest, high);
    let beside = at.x + width_of(rects, anchor);
    let st1 = put(st, at.x, at.y, anchor);
    let column = stack_take(rects, st1.shortest, high);
    let (st2, reach) = put_column(rects, st1, column, 0, beside, at.y, 0);
    let (next, moved) = shelf(rects, st, at);
    assert(st.shortest.contains(st.shortest[st.shortest.len() - 1]));
    lemma_put_consistent(rects, st, at.x, at.y, anchor);
    lemma_put_separate(rects, st, at.x, at.y, anchor);
    assert forall|k: int| 0 <= k < st1.placed.len() implies right(rects, #[trigger] st1.placed[k])
        <= beside || bottom(rects, st1.placed[k]) <= at.y by {
        if k < st.placed.len() {
            assert(st1.placed[k] == st.placed[k]);
        }
    }
    lemma_stack_take(rects, st1.shortest, high);
    lemma_stack_take_rise(rects, st1.shortest, high);
    lemma_put_column_separate(rects, st1, column, 0, beside, at.y, 0);
    lemma_put_column_grows(rects, st1, column, 0, beside, at.y, 0);
    lemma_put_column_len(rects, st1, column, 0, beside, at.y, 0);
    assert(column.skip(0) =~= column);
    assert forall|k: int| st.placed.len() <= k < next.placed.len() implies (
    #[trigger] next.placed[k]).x >= at.x && next.placed[k].y >= at.y && right(rects, next.placed[k])
        <= max(beside, reach) && bottom(rects, next.placed[k]) <= at.y + high by {
        if k < st1.placed.len() {
            assert(next.placed[k] == st1.placed[k]);
        }
    }
    if next.shortest.len() > 0 {
        assert(st1.shortest.len() > 0);
        assert(column.len() > 0) by {
            let first = st1.shortest[0];
            assert(st1.shortest.contains(first));
            assert(st.shortest.contains(first));
            let a = choose|a: int| 0 <= a < st.shortest.len() && st.shortest[a] == first;
            lemma_keys(rects);
            if a < st.shortest.len() - 1 {
                assert(crate::order::comes_before(
                    heights(rects),
                    st.shortest[a],
                    st.shortest[st.shortest.len() - 1],
                ));
            }
            assert(height_of(rects, first) <= high);
        }
        assert forall|k: int| 0 <= k < next.placed.len() implies bottom(
            rects,
            #[trigger] next.placed[k],
        ) <= moved.y || (bottom(rects, next.placed[k]) <= moved.y + moved.tallest && right(
            rects,
            next.placed[k],
        ) <= moved.x) by {
            if k < st1.placed.len() {
                assert(next.placed[k] == st1.placed[k]);
                if k < st.placed.len() {
                    assert(st1.placed[k] == st.placed[k]);
                }
            }
        }
    }
}

/// From a state with room at the cursor on, the finished layout has no two
/// rectangles that overlap.
pub proof fn lemma_run_separate(rects: Seq<Vector2<u32>>, st: Progress, at: Cursor)
    requires
        consistent(rects, st),
        separate(rects, st.placed),
        positive(st.placed),
        st.shortest.len() > 0 ==> settled(rects, st.placed, at),
        at.x >= 0,
        at.y >= 0,
        at.tallest >= 0,
    ensures
        separate(rects, run(rects, st, at)),
        positive(run(rects, st, at)),
    decreases st.shortest.len(),
{
    if st.shortest.len() > 0 {
        lemma_shelf_len(rects, st, at);
        lemma_shelf_consistent(rects, st, at);
        lemma_shelf_separate(rects, st, at);
        let (next, moved) = shelf(rects, st, at);
        lemma_run_separate(rects, next, moved);
    }
}

/// No overlap: no two rectangles of the layout share a point, and none lies
/// left of or above the origin.
pub proof fn lemma_layout_separate(rects: Seq<Vector2<u32>>)
    requires
        rects.len() <= usize::MAX,
    ensures
        separate(rects, layout(rects)),
        positive(layout(rects)),
{
    lemma_start_consistent(rects);
    lemma_run_separate(rects, start(rects), origin());
}

/// Whether the box of width `wide` and height `high` at the origin is the
/// smallest that holds the placements: none of them reaches beyond it, and,
/// if there are any, one reaches its right edge and one its bottom edge;
/// without placements the box is empty.
pub open spec fn bounding(
    rects: Seq<Vector2<u32>>,
    placed: Seq<Placement>,
    wide: int,
    high: int,
) -> bool {
    &&& forall|k: int|
        0 <= k < placed.len() ==> right(rects, #[trigger] placed[k]) <= wide && bottom(
            rects,
            placed[k],
        ) <= high
    &&& placed.len() > 0 ==> exists|k: int|
        0 <= k < placed.len() && right(rects, #[trigger] placed[k]) == wide
    &&& placed.len() > 0 ==> exists|k: int|
        0 <= k < placed.len() && bottom(rects, #[trigger] placed[k]) == high
    &&& placed.len() == 0 ==> wide == 0 && high == 0
}

/// Bounding box: the extent of the layout is the furthest right edge and the
/// furthest bottom edge of its rectangles, so none of them reaches beyond
/// it; without rectangles it is zero.
pub proof fn lemma_layout_bounded(rects: Seq<Vector2<u32>>)
    requires
        rects.len() <= usize::MAX,
    ensures
        bounding(
            rects,
            layout(rects),
            extent_x(rects, layout(rects)),
            extent_y(rects, layout(rects)),
        ),
{
    lemma_layout_separate(rects);
    lemma_extent_is_maximum(rects, layout(rects));
    let placed = layout(rects);
    if placed.len() > 0 {
        let kx = choose|k: int|
            0 <= k < placed.len() && (#[trigger] placed[k]).x + width_of(rects, placed[k].index)
                == extent_x(rects, placed);
        assert(right(rects, placed[kx]) == extent_x(rects, placed));
        let ky = choose|k: int|
            0 <= k < placed.len() && (#[trigger] placed[k]).y + height_of(rects, placed[k].index)
                == extent_y(rects, placed);
        assert(bottom(rects, placed[ky]) == extent_y(rects, placed));
    }
}

} // verus!
