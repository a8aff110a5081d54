//! Bookkeeping of the layout: the two orders always hold the same
//! rectangles, each rectangle is either still in them or placed, and none is
//! placed twice.

use vstd::prelude::*;
use vstd::math::max;
use crate::geometry::Vector2;
use crate::layout::{
    height_of, heights, layout, lemma_shelf_len, origin, put, put_column, put_row, row_take, run,
    shelf, span, stack_take, start, width_of, widths, Cursor, Placement, Progress,
};
use crate::order::{comes_before, key_at, lemma_ascending_is_ascending};

verus! {

/// Whether the entries of `order` stand by ascending key.
pub open spec fn in_order(keys: Seq<u32>, order: Seq<usize>) -> bool {
    forall|a: int, b: int|
        0 <= a < b < order.len() ==> comes_before(keys, #[trigger] order[a], #[trigger] order[b])
}

/// Whether rectangle `index` is among the placements.
pub open spec fn places(placed: Seq<Placement>, index: usize) -> bool {
    exists|k: int| 0 <= k < placed.len() && (#[trigger] placed[k]).index == index
}

/// Whether the state is sound for the rectangles `rects`: both orders are
/// sorted and hold the same rectangles without repetition, and every
/// rectangle is either in the orders or placed once.
pub open spec fn consistent(rects: Seq<Vector2<u32>>, st: Progress) -> bool {
    &&& st.shortest.no_duplicates()
    &&& st.thinnest.no_duplicates()
    &&& forall|i: usize| #[trigger] st.shortest.contains(i) <==> #[trigger] st.thinnest.contains(i)
    &&& forall|i: usize| #[trigger] st.shortest.contains(i) ==> i < rects.len()
    &&& in_order(heights(rects), st.shortest)
    &&& in_order(widths(rects), st.thinnest)
    &&& forall|k: int|
        0 <= k < st.placed.len() ==> (#[trigger] st.placed[k]).index < rects.len()
            && !st.shortest.contains(st.placed[k].index)
    &&& forall|j: int, k: int|
        0 <= j < k < st.placed.len() ==> (#[trigger] st.placed[j]).index != (
        #[trigger] st.placed[k]).index
    &&& forall|i: usize| i < rects.len() ==> st.shortest.contains(i) || #[trigger] places(st.placed, i)
    &&& st.placed.len() + st.shortest.len() == rects.len()
    &&& st.thinnest.len() == st.shortest.len()
}

/// The keys of the heights and widths are the heights and widths.
pub proof fn lemma_keys(rects: Seq<Vector2<u32>>)
    ensures
        forall|i: usize| #[trigger] key_at(heights(rects), i) == height_of(rects, i),
        forall|i: usize| #[trigger] key_at(widths(rects), i) == width_of(rects, i),
{
}

/// Striking a value from a list without repetition: the other values stay,
/// in their order.
pub proof fn lemma_strike(keys: Seq<u32>, s: Seq<usize>, v: usize)
    requires
        s.no_duplicates(),
    ensures
        s.remove_value(v).no_duplicates(),
        forall|x: usize| #[trigger] s.remove_value(v).contains(x) <==> (s.contains(x) && x != v),
        in_order(keys, s) ==> in_order(keys, s.remove_value(v)),
        s.contains(v) ==> s.remove_value(v).len() == s.len() - 1,
        !s.contains(v) ==> s.remove_value(v) == s,
{
    s.index_of_first_ensures(v);
    let r = s.remove_value(v);
    if s.contains(v) {
        let at = s.index_of_first(v).unwrap();
        s.remove_ensures(at);
        assert forall|x: usize| #[trigger] r.contains(x) <==> (s.contains(x) && x != v) by {
            if r.contains(x) {
                let k = choose|k: int| 0 <= k < r.len() && r[k] == x;
                if k < at {
                    assert(s[k] == x);
                } else {
                    assert(s[k + 1] == x);
                }
            }
            if s.contains(x) && x != v {
                let k = choose|k: int| 0 <= k < s.len() && s[k] == x;
                if k < at {
                    assert(r[k] == x);
                } else {
                    assert(r[k - 1] == x);
                }
            }
        }
        assert forall|a: int, b: int| 0 <= a < r.len() && 0 <= b < r.len() && a != b implies r[a]
            != r[b] by {
            let a1 = if a < at { a } else { a + 1 };
            let b1 = if b < at { b } else { b + 1 };
            assert(r[a] == s[a1] && r[b] == s[b1]);
        }
        if in_order(keys, s) {
            assert forall|a: int, b: int| 0 <= a < b < r.len() implies comes_before(
                keys,
                #[trigger] r[a],
                #[trigger] r[b],
            ) by {
                let a1 = if a < at { a } else { a + 1 };
                let b1 = if b < at { b } else { b + 1 };
                assert(r[a] == s[a1] && r[b] == s[b1]);
                assert(comes_before(keys, s[a1], s[b1]));
            }
        }
    }
}

/// Placing a rectangle that is still in the orders keeps the state sound.
pub proof fn lemma_put_consistent(
    rects: Seq<Vector2<u32>>,
    st: Progress,
    x: int,
    y: int,
    index: usize,
)
    requires
        consistent(rects, st),
        st.shortest.contains(index),
    ensures
        consistent(rects, put(st, x, y, index)),
        put(st, x, y, index).shortest.len() == st.shortest.len() - 1,
        put(st, x, y, index).thinnest.len() == st.thinnest.len() - 1,
        forall|i: usize|
            #[trigger] put(st, x, y, index).shortest.contains(i) <==> (st.shortest.contains(i) && i
                != index),
        forall|i: usize|
            #[trigger] put(st, x, y, index).thinnest.contains(i) <==> (st.thinnest.contains(i) && i
                != index),
{
    let next = put(st, x, y, index);
    lemma_strike(heights(rects), st.shortest, index);
    lemma_strike(widths(rects), st.thinnest, index);
    assert(st.thinnest.contains(index));
    assert forall|k: int| 0 <= k < next.placed.len() implies (#[trigger] next.placed[k]).index
        < rects.len() && !next.shortest.contains(next.placed[k].index) by {
        if k < st.placed.len() {
            assert(next.placed[k] == st.placed[k]);
        }
    }
    assert forall|j: int, k: int| 0 <= j < k < next.placed.len() implies (
    #[trigger] next.placed[j]).index != (#[trigger] next.placed[k]).index by {
        assert(next.placed[j] == st.placed[j]);
        if k < st.placed.len() {
            assert(next.placed[k] == st.placed[k]);
        }
    }
    assert forall|i: usize| i < rects.len() implies next.shortest.contains(i) || #[trigger] places(
        next.placed,
        i,
    ) by {
        if i == index {
            assert(next.placed[st.placed.len() as int].index == i);
        } else if !st.shortest.contains(i) {
            assert(places(st.placed, i));
            let k = choose|k: int| 0 <= k < st.placed.len() && (#[trigger] st.placed[k]).index == i;
            assert(next.placed[k].index == i);
        }
    }
}

/// What `stack_take` takes is the front of the order, and its heights fit the budget.
pub proof fn lemma_stack_take(rects: Seq<Vector2<u32>>, order: Seq<usize>, budget: int)
    ensures
        stack_take(rects, order, budget).len() <= order.len(),
        stack_take(rects, order, budget) == order.subrange(
            0,
            stack_take(rects, order, budget).len() as int,
        ),
        order.len() > 0 && height_of(rects, order[0]) <= budget ==> stack_take(
            rects,
            order,
            budget,
        ).len() > 0,
    decreases order.len(),
{
    if order.len() == 0 || height_of(rects, order[0]) > budget {
        assert(stack_take(rects, order, budget) =~= order.subrange(0, 0));
    } else {
        let rest = stack_take(rects, order.drop_first(), budget - height_of(rects, order[0]));
        lemma_stack_take(rects, order.drop_first(), budget - height_of(rects, order[0]));
        assert(seq![order[0]] + rest =~= order.subrange(0, rest.len() as int + 1));
    }
}

/// What `row_take` takes comes from the order, in the order's sequence, and
/// none of it is reserved.
pub proof fn lemma_row_take(
    rects: Seq<Vector2<u32>>,
    order: Seq<usize>,
    reserved: Seq<usize>,
    budget: int,
    ceiling: int,
)
    ensures
        forall|k: int|
            0 <= k < row_take(rects, order, reserved, budget, ceiling).len() ==> order.contains(
                #[trigger] row_take(rects, order, reserved, budget, ceiling)[k],
            ) && !reserved.contains(row_take(rects, order, reserved, budget, ceiling)[k]),
        order.no_duplicates() ==> row_take(rects, order, reserved, budget, ceiling).no_duplicates(),
    decreases order.len(),
{
    let row = row_take(rects, order, reserved, budget, ceiling);
    if order.len() == 0 {
    } else {
        let rest_order = order.drop_first();
        assert forall|x: usize| rest_order.contains(x) implies order.contains(x) by {
            let k = choose|k: int| 0 <= k < rest_order.len() && rest_order[k] == x;
            assert(order[k + 1] == x);
        }
        if order.no_duplicates() {
            assert(rest_order.no_duplicates());
            assert(!rest_order.contains(order[0])) by {
                if rest_order.contains(order[0]) {
                    let k = choose|k: int| 0 <= k < rest_order.len() && rest_order[k] == order[0];
                    assert(order[k + 1] == order[0]);
                }
            }
        }
        if reserved.contains(order[0]) {
            lemma_row_take(rects, rest_order, reserved, budget, ceiling);
        } else if width_of(rects, order[0]) > budget || height_of(rects, order[0]) >= ceiling {
        } else {
            let rest = row_take(
                rects,
                rest_order,
                reserved,
                budget - width_of(rects, order[0]),
                ceiling,
            );
            lemma_row_take(rects, rest_order, reserved, budget - width_of(rects, order[0]), ceiling);
            assert(order.contains(order[0]));
            assert forall|k: int| 0 <= k < row.len() implies order.contains(#[trigger] row[k])
                && !reserved.contains(row[k]) by {
                if k > 0 {
                    assert(row[k] == rest[k - 1]);
                }
            }
            if order.no_duplicates() {
                assert forall|a: int, b: int| 0 <= a < row.len() && 0 <= b < row.len() && a
                    != b implies row[a] != row[b] by {
                    if a > 0 {
                        assert(row[a] == rest[a - 1]);
                    }
                    if b > 0 {
                        assert(row[b] == rest[b - 1]);
                    }
                }
            }
        }
    }
}

/// Before anything is placed the state is sound.
pub proof fn lemma_start_consistent(rects: Seq<Vector2<u32>>)
    requires
        rects.len() <= usize::MAX,
    ensures
        consistent(rects, start(rects)),
{
    lemma_ascending_is_ascending(heights(rects));
    lemma_ascending_is_ascending(widths(rects));
    let st = start(rects);
    assert forall|i: usize| #[trigger] st.shortest.contains(i) <==> #[trigger] st.thinnest.contains(
        i,
    ) by {
        if st.shortest.contains(i) {
            let k = choose|k: int| 0 <= k < st.shortest.len() && st.shortest[k] == i;
            assert(st.shortest[k] < rects.len());
        }
        if st.thinnest.contains(i) {
            let k = choose|k: int| 0 <= k < st.thinnest.len() && st.thinnest[k] == i;
            assert(st.thinnest[k] < rects.len());
        }
    }
    assert forall|i: usize| #[trigger] st.shortest.contains(i) implies i < rects.len() by {
        let k = choose|k: int| 0 <= k < st.shortest.len() && st.shortest[k] == i;
        assert(st.shortest[k] < rects.len());
    }
}

/// Placing a row of rectangles that are still in the orders keeps the state
/// sound, and strikes exactly the row from the orders.
pub proof fn lemma_put_row_consistent(
    rects: Seq<Vector2<u32>>,
    st: Progress,
    row: Seq<usize>,
    x: int,
    y: int,
)
    requires
        consistent(rects, st),
        row.no_duplicates(),
        forall|k: int| 0 <= k < row.len() ==> st.shortest.contains(#[trigger] row[k]),
    ensures
        consistent(rects, put_row(rects, st, row, x, y)),
        forall|i: usize|
            #[trigger] put_row(rects, st, row, x, y).shortest.contains(i) <==> (
            st.shortest.contains(i) && !row.contains(i)),
    decreases row.len(),
{
    if row.len() > 0 {
        let st1 = put(st, x, y, row[0]);
        let rest = row.drop_first();
        let done = put_row(rects, st1, rest, x + width_of(rects, row[0]), y);
        assert(st.shortest.contains(row[0]));
        lemma_put_consistent(rects, st, x, y, row[0]);
        assert forall|k: int| 0 <= k < rest.len() implies st1.shortest.contains(
            #[trigger] rest[k],
        ) by {
            assert(rest[k] == row[k + 1]);
            assert(st.shortest.contains(row[k + 1]));
        }
        lemma_put_row_consistent(rects, st1, rest, x + width_of(rects, row[0]), y);
        assert forall|i: usize| #[trigger]
            done.shortest.contains(i) <==> (st.shortest.contains(i) && !row.contains(i)) by {
            if row.contains(i) {
                let k = choose|k: int| 0 <= k < row.len() && row[k] == i;
                if k > 0 {
                    assert(rest[k - 1] == i);
                }
            }
            if rest.contains(i) {
                let k = choose|k: int| 0 <= k < rest.len() && rest[k] == i;
                assert(row[k + 1] == i);
            }
            assert(row.contains(row[0]));
        }
    }
}

/// Placing a column whose members are still in the orders keeps the state sound.
pub proof fn lemma_put_column_consistent(
    rects: Seq<Vector2<u32>>,
    st: Progress,
    column: Seq<usize>,
    from: int,
    x: int,
    y: int,
    reach: int,
)
    requires
        consistent(rects, st),
        column.no_duplicates(),
        0 <= from <= column.len(),
        forall|j: int| from <= j < column.len() ==> st.shortest.contains(#[trigger] column[j]),
    ensures
        consistent(rects, put_column(rects, st, column, from, x, y, reach).0),
    decreases column.len() - from,
{
    if from < column.len() {
        let member = column[from];
        let beside = x + width_of(rects, member);
        let st1 = put(st, x, y, member);
        let row = row_take(
            rects,
            st1.thinnest,
            column,
            width_of(rects, member),
            height_of(rects, member),
        );
        let st2 = put_row(rects, st1, row, beside, y);
        assert(st.shortest.contains(column[from]));
        lemma_put_consistent(rects, st, x, y, member);
        lemma_row_take(
            rects,
            st1.thinnest,
            column,
            width_of(rects, member),
            height_of(rects, member),
        );
        assert forall|k: int| 0 <= k < row.len() implies st1.shortest.contains(#[trigger] row[k]) by {
            assert(st1.thinnest.contains(row[k]));
        }
        lemma_put_row_consistent(rects, st1, row, beside, y);
        assert forall|j: int| from + 1 <= j < column.len() implies st2.shortest.contains(
            #[trigger] column[j],
        ) by {
            assert(st.shortest.contains(column[j]));
            assert(column[j] != column[from]);
            assert(column.contains(column[j]));
            if row.contains(column[j]) {
                let k = choose|k: int| 0 <= k < row.len() && row[k] == column[j];
                assert(!column.contains(row[k]));
            }
        }
        lemma_put_column_consistent(
            rects,
            st2,
            column,
            from + 1,
            x,
            y + height_of(rects, member),
            max(reach, beside + span(rects, row)),
        );
    }
}

/// Building a shelf segment keeps the state sound.
pub proof fn lemma_shelf_consistent(rects: Seq<Vector2<u32>>, st: Progress, at: Cursor)
    requires
        consistent(rects, st),
        st.shortest.len() > 0,
    ensures
        consistent(rects, shelf(rects, st, at).0),
{
    let anchor = st.shortest.last();
    let st1 = put(st, at.x, at.y, anchor);
    let column = stack_take(rects, st1.shortest, height_of(rects, anchor));
    assert(st.shortest.contains(st.shortest[st.shortest.len() - 1]));
    lemma_put_consistent(rects, st, at.x, at.y, anchor);
    lemma_stack_take(rects, st1.shortest, height_of(rects, anchor));
    assert forall|j: int| 0 <= j < column.len() implies st1.shortest.contains(
        #[trigger] column[j],
    ) by {
        assert(st1.shortest[j] == column[j]);
    }
    lemma_put_column_consistent(
        rects,
        st1,
        column,
        0,
        at.x + width_of(rects, anchor),
        at.y,
        0,
    );
}

/// Whether the placements hold every rectangle of `rects` exactly once.
pub open spec fn complete(rects: Seq<Vector2<u32>>, placed: Seq<Placement>) -> bool {
    &&& placed.len() == rects.len()
    &&& forall|i: usize| i < rects.len() ==> #[trigger] places(placed, i)
    &&& forall|k: int| 0 <= k < placed.len() ==> (#[trigger] placed[k]).index < rects.len()
    &&& forall|j: int, k: int|
        0 <= j < k < placed.len() ==> (#[trigger] placed[j]).index != (#[trigger] placed[k]).index
}

/// From a sound state on, the finished layout holds every rectangle exactly once.
pub proof fn lemma_run_complete(rects: Seq<Vector2<u32>>, st: Progress, at: Cursor)
    requires
        consistent(rects, st),
    ensures
        complete(rects, run(rects, st, at)),
    decreases st.shortest.len(),
{
    if st.shortest.len() > 0 {
        lemma_shelf_len(rects, st, at);
        lemma_shelf_consistent(rects, st, at);
        let (next, moved) = shelf(rects, st, at);
        lemma_run_complete(rects, next, moved);
    } else {
        assert forall|i: usize| i < rects.len() implies #[trigger] places(st.placed, i) by {
            if st.shortest.contains(i) {
                let k = choose|k: int| 0 <= k < st.shortest.len() && st.shortest[k] == i;
            }
        }
    }
}

/// Completeness: the layout places every rectangle, each of them once. It
/// has as many placements as there are rectangles, and every index of the
/// input is the index of exactly one placement.
pub proof fn lemma_layout_complete(rects: Seq<Vector2<u32>>)
    requires
        rects.len() <= usize::MAX,
    ensures
        complete(rects, layout(rects)),
{
    lemma_start_consistent(rects);
    lemma_run_complete(rects, start(rects), origin());
}

} // verus!
