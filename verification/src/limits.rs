//! When a layout fits into 32-bit coordinates.
//!
//! The layout never reaches further right than the widths of all rectangles
//! added up, nor further down than their heights added up. So a list whose
//! widths and whose heights add up to no more than `u32::MAX` can be solved.

use vstd::prelude::*;
use vstd::math::max;
use crate::consistency::{
    consistent, lemma_put_consistent, lemma_put_row_consistent, lemma_row_take,
    lemma_shelf_consistent, lemma_stack_take, lemma_start_consistent, lemma_strike,
};
use crate::geometry::Vector2;
use crate::growth::lemma_shelf_grows;
use crate::layout::{
    extent_x, extent_y, fits, height_of, heights, layout, lemma_shelf_len, origin, put,
    put_column, put_row, rise, row_take, run, shelf, span, stack_take, start, width_of, widths,
    Cursor, Placement, Progress,
};
use crate::order::lemma_ascending_is_ascending;
use crate::separation::{
    bottom, lemma_rise_positive, lemma_shelf_separate, lemma_span_positive, positive, right,
    separate, settled, within,
};

verus! {

/// The widths of all rectangles, added up.
pub open spec fn total_width(rects: Seq<Vector2<u32>>) -> int
    decreases rects.len(),
{
    if rects.len() == 0 {
        0
    } else {
        total_width(rects.drop_last()) + rects.last().x
    }
}

/// The heights of all rectangles, added up.
pub open spec fn total_height(rects: Seq<Vector2<u32>>) -> int
    decreases rects.len(),
{
    if rects.len() == 0 {
        0
    } else {
        total_height(rects.drop_last()) + rects.last().y
    }
}

/// Without entry `i` a list's widths and heights add up to that much less.
pub proof fn lemma_sums_remove(rects: Seq<Vector2<u32>>, s: Seq<usize>, i: int)
    requires
        0 <= i < s.len(),
    ensures
        span(rects, s.remove(i)) == span(rects, s) - width_of(rects, s[i]),
        rise(rects, s.remove(i)) == rise(rects, s) - height_of(rects, s[i]),
    decreases s.len(),
{
    if i == 0 {
        assert(s.remove(0) =~= s.drop_first());
    } else {
        lemma_sums_remove(rects, s.drop_first(), i - 1);
        assert(s.remove(i).drop_first() =~= s.drop_first().remove(i - 1));
        assert(s.remove(i)[0] == s[0]);
    }
}

/// Without the value `v` a list's widths and heights add up to that much less.
pub proof fn lemma_sums_strike(rects: Seq<Vector2<u32>>, s: Seq<usize>, v: usize)
    requires
        s.contains(v),
    ensures
        span(rects, s.remove_value(v)) == span(rects, s) - width_of(rects, v),
        rise(rects, s.remove_value(v)) == rise(rects, s) - height_of(rects, v),
{
    s.index_of_first_ensures(v);
    lemma_sums_remove(rects, s, s.index_of_first(v).unwrap());
}

/// The sums over a list depend only on the sizes of the rectangles in it.
pub proof fn lemma_sums_same(a: Seq<Vector2<u32>>, b: Seq<Vector2<u32>>, s: Seq<usize>)
    requires
        forall|k: int|
            0 <= k < s.len() ==> width_of(a, #[trigger] s[k]) == width_of(b, s[k]) && height_of(
                a,
                s[k],
            ) == height_of(b, s[k]),
    ensures
        span(a, s) == span(b, s),
        rise(a, s) == rise(b, s),
    decreases s.len(),
{
    if s.len() > 0 {
        assert forall|k: int| 0 <= k < s.drop_first().len() implies width_of(
            a,
            #[trigger] s.drop_first()[k],
        ) == width_of(b, s.drop_first()[k]) && height_of(a, s.drop_first()[k]) == height_of(
            b,
            s.drop_first()[k],
        ) by {
            assert(s.drop_first()[k] == s[k + 1]);
        }
        lemma_sums_same(a, b, s.drop_first());
    }
}

/// A list that holds every index once adds up to the totals.
pub proof fn lemma_sums_of_all(rects: Seq<Vector2<u32>>, order: Seq<usize>)
    requires
        rects.len() <= usize::MAX,
        order.no_duplicates(),
        forall|k: int| 0 <= k < order.len() ==> #[trigger] order[k] < rects.len(),
        forall|i: usize| i < rects.len() ==> #[trigger] order.contains(i),
    ensures
        span(rects, order) == total_width(rects),
        rise(rects, order) == total_height(rects),
    decreases rects.len(),
{
    if rects.len() == 0 {
        if order.len() > 0 {
            assert(order[0] < rects.len());
        }
    } else {
        let last = (rects.len() - 1) as usize;
        let front = rects.drop_last();
        let rest = order.remove_value(last);
        assert(order.contains(last));
        lemma_strike(Seq::<u32>::empty(), order, last);
        lemma_sums_strike(rects, order, last);
        assert forall|k: int| 0 <= k < rest.len() implies #[trigger] rest[k] < front.len() by {
            assert(rest.contains(rest[k]));
            assert(order.contains(rest[k]));
            let j = choose|j: int| 0 <= j < order.len() && order[j] == rest[k];
            assert(order[j] < rects.len());
        }
        assert forall|i: usize| i < front.len() implies #[trigger] rest.contains(i) by {
            assert(order.contains(i));
        }
        lemma_sums_same(rects, front, rest);
        lemma_sums_of_all(front, rest);
    }
}

/// The extent after more placements that all lie within a box.
pub proof fn lemma_extent_within(
    rects: Seq<Vector2<u32>>,
    before: Seq<Placement>,
    after: Seq<Placement>,
    left: int,
    top: int,
    far: int,
    floor: int,
)
    requires
        before.is_prefix_of(after),
        within(rects, after, before.len() as int, left, top, far, floor),
    ensures
        extent_x(rects, after) <= max(extent_x(rects, before), far),
        extent_y(rects, after) <= max(extent_y(rects, before), floor),
    decreases after.len(),
{
    if after.len() == before.len() {
        assert(after =~= before);
    } else {
        let front = after.drop_last();
        assert(before.is_prefix_of(front));
        assert forall|k: int| before.len() <= k < front.len() implies (#[trigger] front[k]).x
            >= left && front[k].y >= top && right(rects, front[k]) <= far && bottom(
            rects,
            front[k],
        ) <= floor by {
            assert(front[k] == after[k]);
        }
        lemma_extent_within(rects, before, front, left, top, far, floor);
        assert(right(rects, after[after.len() - 1]) <= far);
    }
}

/// A row takes its widths and heights out of what is left to place.
pub proof fn lemma_put_row_sums(
    rects: Seq<Vector2<u32>>,
    st: Progress,
    row: Seq<usize>,
    x: int,
    y: int,
)
    requires
        consistent(rects, st),
        row.no_duplicates(),
        forall|k: int| 0 <= k < row.len() ==> st.shortest.contains(#[trigger] row[k]),
    ensures
        span(rects, put_row(rects, st, row, x, y).shortest) == span(rects, st.shortest) - span(
            rects,
            row,
        ),
        rise(rects, put_row(rects, st, row, x, y).shortest) == rise(rects, st.shortest) - rise(
            rects,
            row,
        ),
    decreases row.len(),
{
    if row.len() > 0 {
        let st1 = put(st, x, y, row[0]);
        let rest = row.drop_first();
        assert(st.shortest.contains(row[0]));
        lemma_put_consistent(rects, st, x, y, row[0]);
        lemma_sums_strike(rects, st.shortest, row[0]);
        assert forall|k: int| 0 <= k < rest.len() implies st1.shortest.contains(
            #[trigger] rest[k],
        ) by {
            assert(rest[k] == row[k + 1]);
            assert(st.shortest.contains(row[k + 1]));
        }
        lemma_put_row_sums(rects, st1, rest, x + width_of(rects, row[0]), y);
    }
}

/// A column leaves no more to place than there was, and the reach that it
/// returns is the reach that it was given, or is made up of widths that it
/// took out of what was left to place.
pub proof fn lemma_put_column_sums(
    rects: Seq<Vector2<u32>>,
    st: Progress,
    column: Seq<usize>,
    from: int,
    x: int,
    y: int,
    reach: int,
)
    requires
        consistent(rects, st),
        column.no_duplicates(),
        0 <= from <= column.len(),
        forall|j: int| from <= j < column.len() ==> st.shortest.contains(#[trigger] column[j]),
    ensures
        span(rects, put_column(rects, st, column, from, x, y, reach).0.shortest) <= span(
            rects,
            st.shortest,
        ),
        rise(rects, put_column(rects, st, column, from, x, y, reach).0.shortest) <= rise(
            rects,
            st.shortest,
        ),
        put_column(rects, st, column, from, x, y, reach).1 == reach || put_column(
            rects,
            st,
            column,
            from,
            x,
            y,
            reach,
        ).1 + span(rects, put_column(rects, st, column, from, x, y, reach).0.shortest) <= x + span(
            rects,
            st.shortest,
        ),
    decreases column.len() - from,
{
    if from < column.len() {
        let member = column[from];
        let beside = x + width_of(rects, member);
        let st1 = put(st, x, y, member);
        let row = row_take(
            rects,
            st1.thinnest,
            column,
            width_of(rects, member),
            height_of(rects, member),
        );
        let st2 = put_row(rects, st1, row, beside, y);
        assert(st.shortest.contains(column[from]));
        lemma_put_consistent(rects, st, x, y, member);
        lemma_sums_strike(rects, st.shortest, member);
        lemma_row_take(
            rects,
            st1.thinnest,
            column,
            width_of(rects, member),
            height_of(rects, member),
        );
        assert forall|k: int| 0 <= k < row.len() implies st1.shortest.contains(#[trigger] row[k]) by {
            assert(st1.thinnest.contains(row[k]));
        }
        lemma_put_row_consistent(rects, st1, row, beside, y);
        lemma_put_row_sums(rects, st1, row, beside, y);
        lemma_span_positive(rects, row);
        lemma_rise_positive(rects, row);
        assert forall|j: int| from + 1 <= j < column.len() implies st2.shortest.contains(
            #[trigger] column[j],
        ) by {
            assert(st.shortest.contains(column[j]));
            assert(column[j] != column[from]);
            assert(column.contains(column[j]));
            if row.contains(column[j]) {
                let k = choose|k: int| 0 <= k < row.len() && row[k] == column[j];
                assert(!column.contains(row[k]));
            }
        }
        lemma_put_column_sums(
            rects,
            st2,
            column,
            from + 1,
            x,
            y + height_of(rects, member),
            max(reach, beside + span(rects, row)),
        );
    }
}

/// Whether the cursor and the extent leave room for all that is still to be
/// placed, within `wide` and `high`.
pub open spec fn budgeted(
    rects: Seq<Vector2<u32>>,
    st: Progress,
    at: Cursor,
    wide: int,
    high: int,
) -> bool {
    &&& at.x >= 0
    &&& at.y >= 0
    &&& at.tallest >= 0
    &&& at.x + span(rects, st.shortest) <= wide
    &&& at.y + at.tallest + rise(rects, st.shortest) <= high
    &&& extent_x(rects, st.placed) <= wide
    &&& extent_y(rects, st.placed) <= high
}

/// A shelf segment keeps the room for what is left.
pub proof fn lemma_shelf_budget(
    rects: Seq<Vector2<u32>>,
    st: Progress,
    at: Cursor,
    wide: int,
    high: int,
)
    requires
        consistent(rects, st),
        st.shortest.len() > 0,
        separate(rects, st.placed),
        positive(st.placed),
        settled(rects, st.placed, at),
        budgeted(rects, st, at, wide, high),
    ensures
        budgeted(rects, shelf(rects, st, at).0, shelf(rects, st, at).1, wide, high),
{
    let anchor = st.shortest.last();
    let tall = height_of(rects, anchor);
    let beside = at.x + width_of(rects, anchor);
    let st1 = put(st, at.x, at.y, anchor);
    let column = stack_take(rects, st1.shortest, tall);
    let (st2, reach) = put_column(rects, st1, column, 0, beside, at.y, 0);
    let (next, moved) = shelf(rects, st, at);
    assert(st.shortest.contains(st.shortest[st.shortest.len() - 1]));
    lemma_put_consistent(rects, st, at.x, at.y, anchor);
    lemma_sums_strike(rects, st.shortest, anchor);
    lemma_stack_take(rects, st1.shortest, tall);
    assert forall|j: int| 0 <= j < column.len() implies st1.shortest.contains(
        #[trigger] column[j],
    ) by {
        assert(st1.shortest[j] == column[j]);
    }
    lemma_put_column_sums(rects, st1, column, 0, beside, at.y, 0);
    lemma_span_positive(rects, st1.shortest);
    lemma_rise_positive(rects, st1.shortest);
    lemma_span_positive(rects, next.shortest);
    lemma_rise_positive(rects, next.shortest);
    lemma_shelf_separate(rects, st, at);
    lemma_shelf_grows(rects, st, at);
    lemma_extent_within(
        rects,
        st.placed,
        next.placed,
        at.x,
        at.y,
        max(beside, reach),
        at.y + tall,
    );
}

/// From a state with room for what is left, the finished layout stays within
/// `wide` and `high`.
pub proof fn lemma_run_budget(
    rects: Seq<Vector2<u32>>,
    st: Progress,
    at: Cursor,
    wide: int,
    high: int,
)
    requires
        consistent(rects, st),
        separate(rects, st.placed),
        positive(st.placed),
        st.shortest.len() > 0 ==> settled(rects, st.placed, at),
        budgeted(rects, st, at, wide, high),
    ensures
        extent_x(rects, run(rects, st, at)) <= wide,
        extent_y(rects, run(rects, st, at)) <= high,
    decreases st.shortest.len(),
{
    if st.shortest.len() > 0 {
        lemma_shelf_len(rects, st, at);
        lemma_shelf_consistent(rects, st, at);
        lemma_shelf_separate(rects, st, at);
        lemma_shelf_budget(rects, st, at, wide, high);
        let (next, moved) = shelf(rects, st, at);
        lemma_run_budget(rects, next, moved, wide, high);
    }
}

/// The layout is no wider than all widths added up, and no higher than all
/// heights added up.
pub proof fn lemma_layout_within_totals(rects: Seq<Vector2<u32>>)
    requires
        rects.len() <= usize::MAX,
    ensures
        extent_x(rects, layout(rects)) <= total_width(rects),
        extent_y(rects, layout(rects)) <= total_height(rects),
{
    let st = start(rects);
    lemma_start_consistent(rects);
    lemma_ascending_is_ascending(heights(rects));
    lemma_sums_of_all(rects, st.shortest);
    lemma_span_positive(rects, st.shortest);
    lemma_rise_positive(rects, st.shortest);
    lemma_run_budget(rects, st, origin(), total_width(rects), total_height(rects));
}

/// Whether the widths of `rects` and the heights of `rects` each add up to
/// no more than `u32::MAX`. Such a list can be solved: its layout fits.
pub fn totals_fit(rects: &[Vector2<u32>]) -> (ok: bool)
    ensures
        ok == (total_width(rects@) <= u32::MAX && total_height(rects@) <= u32::MAX),
        ok ==> fits(rects@),
{
    let n: usize = rects.len();
    let mut wide: u32 = 0;
    let mut high: u32 = 0;
    let mut i: usize = 0;
    while i < n
        invariant
            n == rects@.len(),
            i <= n,
            wide == total_width(rects@.subrange(0, i as int)),
            high == total_height(rects@.subrange(0, i as int)),
        decreases n - i,
    {
        let size: Vector2<u32> = rects[i];
        proof {
            assert(rects@.subrange(0, i + 1).drop_last() =~= rects@.subrange(0, i as int));
            lemma_totals_grow(rects@, i + 1);
        }
        if size.x > u32::MAX - wide || size.y > u32::MAX - high {
            return false;
        }
        wide += size.x;
        high += size.y;
        i += 1;
    }
    proof {
        assert(rects@.subrange(0, n as int) =~= rects@);
        lemma_layout_within_totals(rects@);
    }
    true
}

/// The totals of a front part are no more than the totals of the whole.
pub proof fn lemma_totals_grow(rects: Seq<Vector2<u32>>, n: int)
    requires
        0 <= n <= rects.len(),
    ensures
        0 <= total_width(rects.subrange(0, n)) <= total_width(rects),
        0 <= total_height(rects.subrange(0, n)) <= total_height(rects),
    decreases rects.len() - n,
{
    if n == rects.len() {
        assert(rects.subrange(0, n) =~= rects);
        lemma_totals_positive(rects);
    } else {
        lemma_totals_grow(rects, n + 1);
        assert(rects.subrange(0, n + 1).drop_last() =~= rects.subrange(0, n));
        lemma_totals_positive(rects.subrange(0, n));
    }
}

/// The totals are no less than zero.
pub proof fn lemma_totals_positive(rects: Seq<Vector2<u32>>)
    ensures
        total_width(rects) >= 0,
        total_height(rects) >= 0,
    decreases rects.len(),
{
    if rects.len() > 0 {
        lemma_totals_positive(rects.drop_last());
    }
}

} // verus!
