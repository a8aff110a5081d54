//! The layout only grows: a placement, once made, stays where it is, so the
//! extent of the layout never shrinks.

use vstd::prelude::*;
use vstd::math::max;
use crate::geometry::Vector2;
use crate::layout::{
    extent_x, extent_y, height_of, put, put_column, put_row, row_take, run, shelf, span,
    stack_take, width_of, Cursor, Placement, Progress,
};

verus! {

/// The extent after one more placement.
pub proof fn lemma_extent_push(rects: Seq<Vector2<u32>>, placed: Seq<Placement>, p: Placement)
    ensures
        extent_x(rects, placed.push(p)) == max(
            extent_x(rects, placed),
            p.x + width_of(rects, p.index),
        ),
        extent_y(rects, placed.push(p)) == max(
            extent_y(rects, placed),
            p.y + height_of(rects, p.index),
        ),
{
    assert(placed.push(p).drop_last() =~= placed);
}

/// The extent reaches every placement and, where no placement lies left of
/// or above the origin, is the edge of one of them.
pub proof fn lemma_extent_is_maximum(rects: Seq<Vector2<u32>>, placed: Seq<Placement>)
    requires
        forall|k: int| 0 <= k < placed.len() ==> (#[trigger] placed[k]).x >= 0 && placed[k].y >= 0,
    ensures
        forall|k: int|
            0 <= k < placed.len() ==> (#[trigger] placed[k]).x + width_of(rects, placed[k].index)
                <= extent_x(rects, placed),
        forall|k: int|
            0 <= k < placed.len() ==> (#[trigger] placed[k]).y + height_of(rects, placed[k].index)
                <= extent_y(rects, placed),
        placed.len() == 0 ==> extent_x(rects, placed) == 0 && extent_y(rects, placed) == 0,
        placed.len() > 0 ==> exists|k: int|
            0 <= k < placed.len() && (#[trigger] placed[k]).x + width_of(rects, placed[k].index)
                == extent_x(rects, placed),
        placed.len() > 0 ==> exists|k: int|
            0 <= k < placed.len() && (#[trigger] placed[k]).y + height_of(rects, placed[k].index)
                == extent_y(rects, placed),
    decreases placed.len(),
{
    if placed.len() > 0 {
        let front = placed.drop_last();
        assert forall|k: int| 0 <= k < front.len() implies (#[trigger] front[k]).x >= 0
            && front[k].y >= 0 by {
            assert(front[k] == placed[k]);
        }
        lemma_extent_is_maximum(rects, front);
        assert forall|k: int| 0 <= k < placed.len() implies (#[trigger] placed[k]).x + width_of(
            rects,
            placed[k].index,
        ) <= extent_x(rects, placed) && placed[k].y + height_of(rects, placed[k].index)
            <= extent_y(rects, placed) by {
            if k < front.len() {
                assert(placed[k] == front[k]);
            }
        }
        if front.len() == 0 {
            assert(placed[0].x + width_of(rects, placed[0].index) == extent_x(rects, placed));
            assert(placed[0].y + height_of(rects, placed[0].index) == extent_y(rects, placed));
        } else {
            let last = placed.len() - 1;
            if extent_x(rects, placed) == extent_x(rects, front) {
                let k = choose|k: int|
                    0 <= k < front.len() && (#[trigger] front[k]).x + width_of(rects, front[k].index)
                        == extent_x(rects, front);
                assert(placed[k] == front[k]);
            } else {
                assert(placed[last].x + width_of(rects, placed[last].index) == extent_x(
                    rects,
                    placed,
                ));
            }
            if extent_y(rects, placed) == extent_y(rects, front) {
                let k = choose|k: int|
                    0 <= k < front.len() && (#[trigger] front[k]).y + height_of(
                        rects,
                        front[k].index,
                    ) == extent_y(rects, front);
                assert(placed[k] == front[k]);
            } else {
                assert(placed[last].y + height_of(rects, placed[last].index) == extent_y(
                    rects,
                    placed,
                ));
            }
        }
    }
}

/// More placements do not make the extent smaller.
pub proof fn lemma_extent_grows(rects: Seq<Vector2<u32>>, a: Seq<Placement>, b: Seq<Placement>)
    requires
        a.is_prefix_of(b),
    ensures
        0 <= extent_x(rects, a) <= extent_x(rects, b),
        0 <= extent_y(rects, a) <= extent_y(rects, b),
    decreases b.len(),
{
    if a.len() == b.len() {
        assert(a =~= b);
        if b.len() > 0 {
            lemma_extent_grows(rects, a.drop_last(), b.drop_last());
        }
    } else {
        assert(a.is_prefix_of(b.drop_last()));
        lemma_extent_grows(rects, a, b.drop_last());
    }
}

/// A row is added behind the placements that exist.
pub proof fn lemma_put_row_grows(
    rects: Seq<Vector2<u32>>,
    st: Progress,
    row: Seq<usize>,
    x: int,
    y: int,
)
    ensures
        st.placed.is_prefix_of(put_row(rects, st, row, x, y).placed),
        put_row(rects, st, row, x, y).placed.len() == st.placed.len() + row.len(),
    decreases row.len(),
{
    if row.len() > 0 {
        let st1 = put(st, x, y, row[0]);
        lemma_put_row_grows(rects, st1, row.drop_first(), x + width_of(rects, row[0]), y);
        assert(st.placed.is_prefix_of(st1.placed));
    }
}

/// A column is added behind the placements that exist.
pub proof fn lemma_put_column_grows(
    rects: Seq<Vector2<u32>>,
    st: Progress,
    column: Seq<usize>,
    from: int,
    x: int,
    y: int,
    reach: int,
)
    ensures
        st.placed.is_prefix_of(put_column(rects, st, column, from, x, y, reach).0.placed),
    decreases column.len() - from,
{
    if 0 <= from < column.len() {
        let member = column[from];
        let beside = x + width_of(rects, member);
        let st1 = put(st, x, y, member);
        let row = row_take(
            rects,
            st1.thinnest,
            column,
            width_of(rects, member),
            height_of(rects, member),
        );
        let st2 = put_row(rects, st1, row, beside, y);
        lemma_put_row_grows(rects, st1, row, beside, y);
        lemma_put_column_grows(
            rects,
            st2,
            column,
            from + 1,
            x,
            y + height_of(rects, member),
            max(reach, beside + span(rects, row)),
        );
        assert(st.placed.is_prefix_of(st1.placed));
    }
}

/// A shelf segment is added behind the placements that exist.
pub proof fn lemma_shelf_grows(rects: Seq<Vector2<u32>>, st: Progress, at: Cursor)
    ensures
        st.placed.is_prefix_of(shelf(rects, st, at).0.placed),
        put(st, at.x, at.y, st.shortest.last()).placed.is_prefix_of(shelf(rects, st, at).0.placed),
{
    let anchor = st.shortest.last();
    let st1 = put(st, at.x, at.y, anchor);
    let column = stack_take(rects, st1.shortest, height_of(rects, anchor));
    lemma_put_column_grows(rects, st1, column, 0, at.x + width_of(rects, anchor), at.y, 0);
    assert(st.placed.is_prefix_of(st1.placed));
}

/// The finished layout starts with the placements that exist.
pub proof fn lemma_run_grows(rects: Seq<Vector2<u32>>, st: Progress, at: Cursor)
    ensures
        st.placed.is_prefix_of(run(rects, st, at)),
    decreases st.shortest.len(),
{
    if st.shortest.len() > 0 {
        crate::layout::lemma_shelf_len(rects, st, at);
        let (next, moved) = shelf(rects, st, at);
        lemma_shelf_grows(rects, st, at);
        lemma_run_grows(rects, next, moved);
    }
}

} // verus!
