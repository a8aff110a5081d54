//! Scaling: rectangles that are all a whole number of times as large are
//! laid out in the same way, that many times as large.

use vstd::prelude::*;
use vstd::math::max;
use crate::geometry::Vector2;
use crate::layout::{
    extent_x, extent_y, height_of, heights, layout, lemma_shelf_len, origin, put, put_column,
    put_row, row_take, run, shelf, span, stack_take, start, width_of, widths, Cursor, Placement,
    Progress,
};
use crate::order::{
    ascending, comes_before, is_ascending, key_at, lemma_ascending_is_ascending,
    lemma_ascending_unique,
};

verus! {

/// Whether `big` holds the rectangles of `small`, each `factor` times as
/// wide and as high.
pub open spec fn scaled(small: Seq<Vector2<u32>>, big: Seq<Vector2<u32>>, factor: int) -> bool {
    &&& big.len() == small.len()
    &&& forall|i: int|
        0 <= i < small.len() ==> (#[trigger] big[i]).x == factor * small[i].x && big[i].y == factor
            * small[i].y
}

/// The placements moved `factor` times as far from the origin.
pub open spec fn enlarge(placed: Seq<Placement>, factor: int) -> Seq<Placement> {
    placed.map_values(
        |p: Placement| Placement { x: factor * p.x, y: factor * p.y, index: p.index },
    )
}

/// The state with its placements moved `factor` times as far from the origin.
pub open spec fn enlarge_progress(st: Progress, factor: int) -> Progress {
    Progress { shortest: st.shortest, thinnest: st.thinnest, placed: enlarge(st.placed, factor) }
}

/// The cursor moved `factor` times as far from the origin.
pub open spec fn enlarge_cursor(at: Cursor, factor: int) -> Cursor {
    Cursor { x: factor * at.x, y: factor * at.y, tallest: factor * at.tallest }
}

/// Multiplying by a positive number keeps order, sums and maxima.
pub proof fn lemma_times(k: int, a: int, b: int)
    requires
        k >= 1,
    ensures
        (a < b) == (k * a < k * b),
        (a <= b) == (k * a <= k * b),
        (a == b) == (k * a == k * b),
        k * (a + b) == k * a + k * b,
        k * (a - b) == k * a - k * b,
        k * max(a, b) == max(k * a, k * b),
        k * 0 == 0,
{
    assert((a < b) == (k * a < k * b)) by (nonlinear_arith)
        requires
            k >= 1,
    ;
    assert((a <= b) == (k * a <= k * b)) by (nonlinear_arith)
        requires
            k >= 1,
    ;
    assert(k * (a + b) == k * a + k * b) by (nonlinear_arith);
    assert(k * (a - b) == k * a - k * b) by (nonlinear_arith);
    assert(k * 0 == 0) by (nonlinear_arith);
}

/// Every size in `big` is `factor` times the size in `small`.
pub proof fn lemma_scaled_sizes(small: Seq<Vector2<u32>>, big: Seq<Vector2<u32>>, k: int)
    requires
        scaled(small, big, k),
        k >= 1,
    ensures
        forall|i: usize| #[trigger] width_of(big, i) == k * width_of(small, i),
        forall|i: usize| #[trigger] height_of(big, i) == k * height_of(small, i),
{
    lemma_times(k, 0, 0);
    assert forall|i: usize| #[trigger] width_of(big, i) == k * width_of(small, i) by {
        if i < small.len() {
            assert(big[i as int].x == k * small[i as int].x);
        }
    }
    assert forall|i: usize| #[trigger] height_of(big, i) == k * height_of(small, i) by {
        if i < small.len() {
            assert(big[i as int].y == k * small[i as int].y);
        }
    }
}

/// Keys that are all `factor` times as large have the same ascending order.
pub proof fn lemma_scaled_order(small: Seq<u32>, big: Seq<u32>, k: int)
    requires
        small.len() <= usize::MAX,
        big.len() == small.len(),
        forall|i: int| 0 <= i < small.len() ==> #[trigger] big[i] == k * small[i],
        k >= 1,
    ensures
        ascending(big) == ascending(small),
{
    let order = ascending(small);
    lemma_ascending_is_ascending(small);
    assert forall|a: int, b: int| 0 <= a < b < order.len() implies comes_before(
        big,
        #[trigger] order[a],
        #[trigger] order[b],
    ) by {
        assert(comes_before(small, order[a], order[b]));
        assert(order[a] < small.len() && order[b] < small.len());
        assert(key_at(big, order[a]) == k * key_at(small, order[a]));
        assert(key_at(big, order[b]) == k * key_at(small, order[b]));
        lemma_times(k, key_at(small, order[a]), key_at(small, order[b]));
    }
    assert(is_ascending(order, big));
    lemma_ascending_unique(order, big);
}

/// Sums of widths scale with the rectangles.
pub proof fn lemma_scaled_span(
    small: Seq<Vector2<u32>>,
    big: Seq<Vector2<u32>>,
    k: int,
    row: Seq<usize>,
)
    requires
        scaled(small, big, k),
        k >= 1,
    ensures
        span(big, row) == k * span(small, row),
    decreases row.len(),
{
    lemma_scaled_sizes(small, big, k);
    if row.len() == 0 {
        lemma_times(k, 0, 0);
    } else {
        lemma_scaled_span(small, big, k, row.drop_first());
        lemma_times(k, width_of(small, row[0]), span(small, row.drop_first()));
    }
}

/// The extent scales with the rectangles and their placements.
pub proof fn lemma_scaled_extent(
    small: Seq<Vector2<u32>>,
    big: Seq<Vector2<u32>>,
    k: int,
    placed: Seq<Placement>,
)
    requires
        scaled(small, big, k),
        k >= 1,
    ensures
        extent_x(big, enlarge(placed, k)) == k * extent_x(small, placed),
        extent_y(big, enlarge(placed, k)) == k * extent_y(small, placed),
    decreases placed.len(),
{
    lemma_scaled_sizes(small, big, k);
    if placed.len() == 0 {
        lemma_times(k, 0, 0);
    } else {
        let p = placed.last();
        lemma_scaled_extent(small, big, k, placed.drop_last());
        assert(enlarge(placed, k).drop_last() =~= enlarge(placed.drop_last(), k));
        lemma_times(k, p.x, width_of(small, p.index));
        lemma_times(k, p.y, height_of(small, p.index));
        lemma_times(k, extent_x(small, placed.drop_last()), p.x + width_of(small, p.index));
        lemma_times(k, extent_y(small, placed.drop_last()), p.y + height_of(small, p.index));
    }
}

/// The same rectangles fit a budget that scales with them.
pub proof fn lemma_scaled_stack_take(
    small: Seq<Vector2<u32>>,
    big: Seq<Vector2<u32>>,
    k: int,
    order: Seq<usize>,
    budget: int,
)
    requires
        scaled(small, big, k),
        k >= 1,
    ensures
        stack_take(big, order, k * budget) == stack_take(small, order, budget),
    decreases order.len(),
{
    lemma_scaled_sizes(small, big, k);
    if order.len() > 0 {
        let tall = height_of(small, order[0]);
        lemma_times(k, budget, tall);
        if tall <= budget {
            lemma_scaled_stack_take(small, big, k, order.drop_first(), budget - tall);
        }
    }
}

/// The same rectangles fit a budget and a ceiling that scale with them.
pub proof fn lemma_scaled_row_take(
    small: Seq<Vector2<u32>>,
    big: Seq<Vector2<u32>>,
    k: int,
    order: Seq<usize>,
    reserved: Seq<usize>,
    budget: int,
    ceiling: int,
)
    requires
        scaled(small, big, k),
        k >= 1,
    ensures
        row_take(big, order, reserved, k * budget, k * ceiling) == row_take(
            small,
            order,
            reserved,
            budget,
            ceiling,
        ),
    decreases order.len(),
{
    lemma_scaled_sizes(small, big, k);
    if order.len() > 0 {
        let wide = width_of(small, order[0]);
        let tall = height_of(small, order[0]);
        lemma_times(k, budget, wide);
        lemma_times(k, tall, ceiling);
        if reserved.contains(order[0]) {
            lemma_scaled_row_take(small, big, k, order.drop_first(), reserved, budget, ceiling);
        } else if wide > budget || tall >= ceiling {
        } else {
            lemma_scaled_row_take(
                small,
                big,
                k,
                order.drop_first(),
                reserved,
                budget - wide,
                ceiling,
            );
        }
    }
}

/// A placement scales with its corner.
pub proof fn lemma_scaled_put(st: Progress, k: int, x: int, y: int, index: usize)
    ensures
        put(enlarge_progress(st, k), k * x, k * y, index) == enlarge_progress(
            put(st, x, y, index),
            k,
        ),
{
    assert(enlarge(st.placed, k).push(Placement { x: k * x, y: k * y, index }) =~= enlarge(
        st.placed.push(Placement { x, y, index }),
        k,
    ));
}

/// A row scales with the rectangles.
pub proof fn lemma_scaled_put_row(
    small: Seq<Vector2<u32>>,
    big: Seq<Vector2<u32>>,
    k: int,
    st: Progress,
    row: Seq<usize>,
    x: int,
    y: int,
)
    requires
        scaled(small, big, k),
        k >= 1,
    ensures
        put_row(big, enlarge_progress(st, k), row, k * x, k * y) == enlarge_progress(
            put_row(small, st, row, x, y),
            k,
        ),
    decreases row.len(),
{
    if row.len() > 0 {
        lemma_scaled_sizes(small, big, k);
        lemma_scaled_put(st, k, x, y, row[0]);
        lemma_times(k, x, width_of(small, row[0]));
        lemma_scaled_put_row(
            small,
            big,
            k,
            put(st, x, y, row[0]),
            row.drop_first(),
            x + width_of(small, row[0]),
            y,
        );
    }
}

/// A column scales with the rectangles.
pub proof fn lemma_scaled_put_column(
    small: Seq<Vector2<u32>>,
    big: Seq<Vector2<u32>>,
    k: int,
    st: Progress,
    column: Seq<usize>,
    from: int,
    x: int,
    y: int,
    reach: int,
)
    requires
        scaled(small, big, k),
        k >= 1,
    ensures
        put_column(big, enlarge_progress(st, k), column, from, k * x, k * y, k * reach).0
            == enlarge_progress(put_column(small, st, column, from, x, y, reach).0, k),
        put_column(big, enlarge_progress(st, k), column, from, k * x, k * y, k * reach).1 == k
            * put_column(small, st, column, from, x, y, reach).1,
    decreases column.len() - from,
{
    if 0 <= from < column.len() {
        let member = column[from];
        let wide = width_of(small, member);
        let tall = height_of(small, member);
        let beside = x + wide;
        let st1 = put(st, x, y, member);
        let row = row_take(small, st1.thinnest, column, wide, tall);
        let st2 = put_row(small, st1, row, beside, y);
        lemma_scaled_sizes(small, big, k);
        lemma_scaled_put(st, k, x, y, member);
        lemma_scaled_row_take(small, big, k, st1.thinnest, column, wide, tall);
        lemma_times(k, x, wide);
        lemma_times(k, y, tall);
        lemma_scaled_put_row(small, big, k, st1, row, beside, y);
        lemma_scaled_span(small, big, k, row);
        lemma_times(k, beside, span(small, row));
        lemma_times(k, reach, beside + span(small, row));
        lemma_scaled_put_column(
            small,
            big,
            k,
            st2,
            column,
            from + 1,
            x,
            y + tall,
            max(reach, beside + span(small, row)),
        );
    }
}

/// A shelf segment scales with the rectangles.
pub proof fn lemma_scaled_shelf(
    small: Seq<Vector2<u32>>,
    big: Seq<Vector2<u32>>,
    k: int,
    st: Progress,
    at: Cursor,
)
    requires
        scaled(small, big, k),
        k >= 1,
    ensures
        shelf(big, enlarge_progress(st, k), enlarge_cursor(at, k)).0 == enlarge_progress(
            shelf(small, st, at).0,
            k,
        ),
        shelf(big, enlarge_progress(st, k), enlarge_cursor(at, k)).1 == enlarge_cursor(
            shelf(small, st, at).1,
            k,
        ),
{
    let anchor = st.shortest.last();
    let wide = width_of(small, anchor);
    let tall = height_of(small, anchor);
    let st1 = put(st, at.x, at.y, anchor);
    let column = stack_take(small, st1.shortest, tall);
    let (st2, reach) = put_column(small, st1, column, 0, at.x + wide, at.y, 0);
    lemma_scaled_sizes(small, big, k);
    lemma_scaled_put(st, k, at.x, at.y, anchor);
    lemma_scaled_stack_take(small, big, k, st1.shortest, tall);
    lemma_times(k, at.x, wide);
    lemma_times(k, at.tallest, tall);
    lemma_times(k, 0, 0);
    lemma_scaled_put_column(small, big, k, st1, column, 0, at.x + wide, at.y, 0);
    lemma_scaled_extent(small, big, k, st2.placed);
    lemma_times(k, extent_x(small, st2.placed), extent_y(small, st2.placed));
    lemma_times(k, at.y, max(at.tallest, tall));
}

/// The run scales with the rectangles.
pub proof fn lemma_scaled_run(
    small: Seq<Vector2<u32>>,
    big: Seq<Vector2<u32>>,
    k: int,
    st: Progress,
    at: Cursor,
)
    requires
        scaled(small, big, k),
        k >= 1,
    ensures
        run(big, enlarge_progress(st, k), enlarge_cursor(at, k)) == enlarge(run(small, st, at), k),
    decreases st.shortest.len(),
{
    if st.shortest.len() > 0 {
        lemma_shelf_len(small, st, at);
        lemma_scaled_shelf(small, big, k, st, at);
        let (next, moved) = shelf(small, st, at);
        lemma_scaled_run(small, big, k, next, moved);
    }
}

/// Scaling: where every rectangle of `big` is `factor` times as wide and as
/// high as the rectangle of `small` with the same index, the layout of `big`
/// is the layout of `small` with every placement `factor` times as far from
/// the origin, and the extent of the layout is `factor` times the extent.
pub proof fn lemma_layout_scales(small: Seq<Vector2<u32>>, big: Seq<Vector2<u32>>, factor: int)
    requires
        small.len() <= usize::MAX,
        scaled(small, big, factor),
        factor >= 1,
    ensures
        layout(big) == enlarge(layout(small), factor),
        extent_x(big, layout(big)) == factor * extent_x(small, layout(small)),
        extent_y(big, layout(big)) == factor * extent_y(small, layout(small)),
{
    assert forall|i: int| 0 <= i < small.len() implies #[trigger] heights(big)[i] == factor
        * heights(small)[i] by {
        assert(big[i].y == factor * small[i].y);
    }
    assert forall|i: int| 0 <= i < small.len() implies #[trigger] widths(big)[i] == factor
        * widths(small)[i] by {
        assert(big[i].x == factor * small[i].x);
    }
    lemma_scaled_order(heights(small), heights(big), factor);
    lemma_scaled_order(widths(small), widths(big), factor);
    lemma_times(factor, 0, 0);
    assert(enlarge(Seq::<Placement>::empty(), factor) =~= Seq::<Placement>::empty());
    assert(start(big) == enlarge_progress(start(small), factor));
    assert(origin() == enlarge_cursor(origin(), factor));
    lemma_scaled_run(small, big, factor, start(small), origin());
    lemma_scaled_extent(small, big, factor, layout(small));
}

} // verus!
