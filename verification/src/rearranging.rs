//! Rearranging: the same rectangles in another arrangement are laid out in
//! the same way, as long as rectangles of equal height, and of equal width,
//! keep their order among themselves.
//!
//! Rectangles of equal height or width are taken in the order of their
//! indices. An arrangement that turns such an order around can lead to
//! another layout, with other dimensions.

use vstd::prelude::*;
use vstd::math::max;
use crate::geometry::Vector2;
use crate::layout::{
    extent_x, extent_y, height_of, heights, layout, lemma_shelf_len, origin, put, put_column,
    put_row, row_take, run, shelf, span, stack_take, start, width_of, widths, Cursor, Placement,
    Progress,
};
use crate::order::{
    ascending, comes_before, is_ascending, key_at, lemma_ascending_is_ascending,
    lemma_ascending_unique,
};

verus! {

/// Index `i` as the arrangement `to` names it; an index past the end of
/// `to` keeps its name.
pub open spec fn renamed(to: Seq<usize>, i: usize) -> usize {
    if i < to.len() {
        to[i as int]
    } else {
        i
    }
}

/// Whether `to` names every index below its length once.
pub open spec fn is_arrangement(to: Seq<usize>) -> bool {
    &&& to.no_duplicates()
    &&& forall|i: int| 0 <= i < to.len() ==> #[trigger] to[i] < to.len()
    &&& forall|j: usize| j < to.len() ==> #[trigger] to.contains(j)
}

/// Whether `moved` holds the rectangles of `rects` in the arrangement `to`:
/// rectangle `i` of `moved` is rectangle `to[i]` of `rects`.
pub open spec fn rearranged(
    rects: Seq<Vector2<u32>>,
    moved: Seq<Vector2<u32>>,
    to: Seq<usize>,
) -> bool {
    &&& moved.len() == rects.len()
    &&& to.len() == rects.len()
    &&& is_arrangement(to)
    &&& forall|i: int| 0 <= i < moved.len() ==> #[trigger] moved[i] == rects[to[i] as int]
}

/// Whether indices with equal keys keep their order under the arrangement `to`.
pub open spec fn keeps_ties(keys: Seq<u32>, to: Seq<usize>) -> bool {
    forall|i: int, j: int|
        0 <= i < j < keys.len() && keys[i] == keys[j] ==> #[trigger] to[i] < #[trigger] to[j]
}

/// The indices of a list under the arrangement `to`.
pub open spec fn rename_list(list: Seq<usize>, to: Seq<usize>) -> Seq<usize> {
    list.map_values(|i: usize| renamed(to, i))
}

/// The placements with their indices under the arrangement `to`.
pub open spec fn rename_placed(placed: Seq<Placement>, to: Seq<usize>) -> Seq<Placement> {
    placed.map_values(|p: Placement| Placement { x: p.x, y: p.y, index: renamed(to, p.index) })
}

/// The state with all its indices under the arrangement `to`.
pub open spec fn rename_progress(st: Progress, to: Seq<usize>) -> Progress {
    Progress {
        shortest: rename_list(st.shortest, to),
        thinnest: rename_list(st.thinnest, to),
        placed: rename_placed(st.placed, to),
    }
}

/// An arrangement gives different indices different names.
pub proof fn lemma_renamed_injective(to: Seq<usize>)
    requires
        is_arrangement(to),
    ensures
        forall|a: usize, b: usize| #[trigger] renamed(to, a) == #[trigger] renamed(to, b) ==> a == b,
{
    assert forall|a: usize, b: usize| #[trigger] renamed(to, a) == #[trigger] renamed(
        to,
        b,
    ) implies a == b by {
        if a < to.len() {
            assert(to[a as int] < to.len());
        }
        if b < to.len() {
            assert(to[b as int] < to.len());
        }
    }
}

/// A rectangle has the same size under its new name.
pub proof fn lemma_renamed_sizes(rects: Seq<Vector2<u32>>, moved: Seq<Vector2<u32>>, to: Seq<usize>)
    requires
        rearranged(rects, moved, to),
    ensures
        forall|i: usize| #[trigger] width_of(rects, renamed(to, i)) == width_of(moved, i),
        forall|i: usize| #[trigger] height_of(rects, renamed(to, i)) == height_of(moved, i),
{
    assert forall|i: usize| #[trigger]
        width_of(rects, renamed(to, i)) == width_of(moved, i) && #[trigger] height_of(
            rects,
            renamed(to, i),
        ) == height_of(moved, i) by {
        if i < to.len() {
            assert(to[i as int] < to.len());
            assert(moved[i as int] == rects[to[i as int] as int]);
        }
    }
}

/// A renamed list holds the new name of a value where the list holds the value.
pub proof fn lemma_renamed_contains(list: Seq<usize>, to: Seq<usize>, v: usize)
    requires
        is_arrangement(to),
    ensures
        rename_list(list, to).contains(renamed(to, v)) == list.contains(v),
{
    lemma_renamed_injective(to);
    let names = rename_list(list, to);
    if list.contains(v) {
        let k = choose|k: int| 0 <= k < list.len() && list[k] == v;
        assert(names[k] == renamed(to, v));
    }
    if names.contains(renamed(to, v)) {
        let k = choose|k: int| 0 <= k < names.len() && names[k] == renamed(to, v);
        assert(renamed(to, list[k]) == renamed(to, v));
        assert(list[k] == v);
    }
}

/// Striking a value from a list, and its new name from the renamed list,
/// leave the same.
pub proof fn lemma_renamed_strike(list: Seq<usize>, to: Seq<usize>, v: usize)
    requires
        is_arrangement(to),
    ensures
        rename_list(list, to).remove_value(renamed(to, v)) == rename_list(
            list.remove_value(v),
            to,
        ),
{
    lemma_renamed_injective(to);
    lemma_renamed_contains(list, to, v);
    let names = rename_list(list, to);
    list.index_of_first_ensures(v);
    names.index_of_first_ensures(renamed(to, v));
    if list.contains(v) {
        let at = list.index_of_first(v).unwrap();
        let there = names.index_of_first(renamed(to, v)).unwrap();
        assert(names[at] == renamed(to, v));
        assert(renamed(to, list[there]) == renamed(to, v));
        assert(list[there] == v);
        assert(at == there);
        assert(names.remove(at) =~= rename_list(list.remove(at), to));
    }
}

/// The arrangement of the keys turns the ascending order of the new keys
/// into the ascending order of the old ones.
pub proof fn lemma_renamed_order(old_keys: Seq<u32>, new_keys: Seq<u32>, to: Seq<usize>)
    requires
        old_keys.len() <= usize::MAX,
        new_keys.len() == old_keys.len(),
        to.len() == old_keys.len(),
        is_arrangement(to),
        forall|i: int| 0 <= i < new_keys.len() ==> #[trigger] new_keys[i] == old_keys[to[i] as int],
        keeps_ties(new_keys, to),
    ensures
        ascending(old_keys) == rename_list(ascending(new_keys), to),
{
    lemma_renamed_injective(to);
    let order = ascending(new_keys);
    let names = rename_list(order, to);
    lemma_ascending_is_ascending(new_keys);
    assert forall|a: int, b: int| 0 <= a < names.len() && 0 <= b < names.len() && a
        != b implies names[a] != names[b] by {
        assert(renamed(to, order[a]) == names[a]);
        assert(renamed(to, order[b]) == names[b]);
    }
    assert forall|k: int| 0 <= k < names.len() implies #[trigger] names[k] < old_keys.len() by {
        assert(order[k] < new_keys.len());
        assert(to[order[k] as int] < to.len());
    }
    assert forall|j: usize| j < old_keys.len() implies #[trigger] names.contains(j) by {
        assert(to.contains(j));
        let i = choose|i: int| 0 <= i < to.len() && to[i] == j;
        assert(order.contains(i as usize));
        let k = choose|k: int| 0 <= k < order.len() && order[k] == i as usize;
        assert(names[k] == j);
    }
    assert forall|a: int, b: int| 0 <= a < b < names.len() implies comes_before(
        old_keys,
        #[trigger] names[a],
        #[trigger] names[b],
    ) by {
        let i = order[a];
        let j = order[b];
        assert(comes_before(new_keys, i, j));
        assert(i < new_keys.len() && j < new_keys.len());
        assert(to[i as int] < to.len() && to[j as int] < to.len());
        assert(new_keys[i as int] == old_keys[to[i as int] as int]);
        assert(new_keys[j as int] == old_keys[to[j as int] as int]);
        assert(key_at(old_keys, names[a]) == key_at(new_keys, i));
        assert(key_at(old_keys, names[b]) == key_at(new_keys, j));
        if key_at(new_keys, i) == key_at(new_keys, j) {
            assert(i != j);
            assert(i < j);
            assert(to[i as int] < to[j as int]);
        }
    }
    assert(is_ascending(names, old_keys));
    lemma_ascending_unique(names, old_keys);
}

/// Sums of widths do not depend on the names.
pub proof fn lemma_renamed_span(
    rects: Seq<Vector2<u32>>,
    moved: Seq<Vector2<u32>>,
    to: Seq<usize>,
    row: Seq<usize>,
)
    requires
        rearranged(rects, moved, to),
    ensures
        span(rects, rename_list(row, to)) == span(moved, row),
    decreases row.len(),
{
    lemma_renamed_sizes(rects, moved, to);
    if row.len() > 0 {
        lemma_renamed_span(rects, moved, to, row.drop_first());
        assert(rename_list(row, to).drop_first() =~= rename_list(row.drop_first(), to));
    }
}

/// The extent does not depend on the names.
pub proof fn lemma_renamed_extent(
    rects: Seq<Vector2<u32>>,
    moved: Seq<Vector2<u32>>,
    to: Seq<usize>,
    placed: Seq<Placement>,
)
    requires
        rearranged(rects, moved, to),
    ensures
        extent_x(rects, rename_placed(placed, to)) == extent_x(moved, placed),
        extent_y(rects, rename_placed(placed, to)) == extent_y(moved, placed),
    decreases placed.len(),
{
    lemma_renamed_sizes(rects, moved, to);
    if placed.len() > 0 {
        lemma_renamed_extent(rects, moved, to, placed.drop_last());
        assert(rename_placed(placed, to).drop_last() =~= rename_placed(placed.drop_last(), to));
    }
}

/// The same rectangles are stacked, under their new names.
pub proof fn lemma_renamed_stack_take(
    rects: Seq<Vector2<u32>>,
    moved: Seq<Vector2<u32>>,
    to: Seq<usize>,
    order: Seq<usize>,
    budget: int,
)
    requires
        rearranged(rects, moved, to),
    ensures
        stack_take(rects, rename_list(order, to), budget) == rename_list(
            stack_take(moved, order, budget),
            to,
        ),
    decreases order.len(),
{
    lemma_renamed_sizes(rects, moved, to);
    let names = rename_list(order, to);
    if order.len() == 0 || height_of(moved, order[0]) > budget {
        assert(stack_take(rects, names, budget) =~= rename_list(Seq::<usize>::empty(), to));
    } else {
        let tall = height_of(moved, order[0]);
        lemma_renamed_stack_take(rects, moved, to, order.drop_first(), budget - tall);
        assert(names.drop_first() =~= rename_list(order.drop_first(), to));
        assert(seq![names[0]] + rename_list(
            stack_take(moved, order.drop_first(), budget - tall),
            to,
        ) =~= rename_list(
            seq![order[0]] + stack_take(moved, order.drop_first(), budget - tall),
            to,
        ));
    }
}

/// The same rectangles go into a row, under their new names.
pub proof fn lemma_renamed_row_take(
    rects: Seq<Vector2<u32>>,
    moved: Seq<Vector2<u32>>,
    to: Seq<usize>,
    order: Seq<usize>,
    reserved: Seq<usize>,
    budget: int,
    ceiling: int,
)
    requires
        rearranged(rects, moved, to),
    ensures
        row_take(rects, rename_list(order, to), rename_list(reserved, to), budget, ceiling)
            == rename_list(row_take(moved, order, reserved, budget, ceiling), to),
    decreases order.len(),
{
    lemma_renamed_sizes(rects, moved, to);
    let names = rename_list(order, to);
    let kept = rename_list(reserved, to);
    if order.len() == 0 {
        assert(row_take(rects, names, kept, budget, ceiling) =~= rename_list(
            Seq::<usize>::empty(),
            to,
        ));
    } else {
        lemma_renamed_contains(reserved, to, order[0]);
        assert(names.drop_first() =~= rename_list(order.drop_first(), to));
        let wide = width_of(moved, order[0]);
        if reserved.contains(order[0]) {
            lemma_renamed_row_take(rects, moved, to, order.drop_first(), reserved, budget, ceiling);
        } else if wide > budget || height_of(moved, order[0]) >= ceiling {
            assert(row_take(rects, names, kept, budget, ceiling) =~= rename_list(
                Seq::<usize>::empty(),
                to,
            ));
        } else {
            lemma_renamed_row_take(
                rects,
                moved,
                to,
                order.drop_first(),
                reserved,
                budget - wide,
                ceiling,
            );
            assert(seq![names[0]] + rename_list(
                row_take(moved, order.drop_first(), reserved, budget - wide, ceiling),
                to,
            ) =~= rename_list(
                seq![order[0]] + row_take(
                    moved,
                    order.drop_first(),
                    reserved,
                    budget - wide,
                    ceiling,
                ),
                to,
            ));
        }
    }
}

/// A placement under a new name.
pub proof fn lemma_renamed_put(st: Progress, to: Seq<usize>, x: int, y: int, index: usize)
    requires
        is_arrangement(to),
    ensures
        put(rename_progress(st, to), x, y, renamed(to, index)) == rename_progress(
            put(st, x, y, index),
            to,
        ),
{
    lemma_renamed_strike(st.shortest, to, index);
    lemma_renamed_strike(st.thinnest, to, index);
    assert(rename_placed(st.placed, to).push(Placement { x, y, index: renamed(to, index) })
        =~= rename_placed(st.placed.push(Placement { x, y, index }), to));
}

/// A row under new names.
pub proof fn lemma_renamed_put_row(
    rects: Seq<Vector2<u32>>,
    moved: Seq<Vector2<u32>>,
    to: Seq<usize>,
    st: Progress,
    row: Seq<usize>,
    x: int,
    y: int,
)
    requires
        rearranged(rects, moved, to),
    ensures
        put_row(rects, rename_progress(st, to), rename_list(row, to), x, y) == rename_progress(
            put_row(moved, st, row, x, y),
            to,
        ),
    decreases row.len(),
{
    if row.len() > 0 {
        lemma_renamed_sizes(rects, moved, to);
        lemma_renamed_put(st, to, x, y, row[0]);
        assert(rename_list(row, to).drop_first() =~= rename_list(row.drop_first(), to));
        lemma_renamed_put_row(
            rects,
            moved,
            to,
            put(st, x, y, row[0]),
            row.drop_first(),
            x + width_of(moved, row[0]),
            y,
        );
    }
}

/// A column under new names.
pub proof fn lemma_renamed_put_column(
    rects: Seq<Vector2<u32>>,
    moved: Seq<Vector2<u32>>,
    to: Seq<usize>,
    st: Progress,
    column: Seq<usize>,
    from: int,
    x: int,
    y: int,
    reach: int,
)
    requires
        rearranged(rects, moved, to),
    ensures
        put_column(rects, rename_progress(st, to), rename_list(column, to), from, x, y, reach).0
            == rename_progress(put_column(moved, st, column, from, x, y, reach).0, to),
        put_column(rects, rename_progress(st, to), rename_list(column, to), from, x, y, reach).1
            == put_column(moved, st, column, from, x, y, reach).1,
    decreases column.len() - from,
{
    if 0 <= from < column.len() {
        let member = column[from];
        let wide = width_of(moved, member);
        let tall = height_of(moved, member);
        let beside = x + wide;
        let st1 = put(st, x, y, member);
        let row = row_take(moved, st1.thinnest, column, wide, tall);
        let st2 = put_row(moved, st1, row, beside, y);
        lemma_renamed_sizes(rects, moved, to);
        lemma_renamed_put(st, to, x, y, member);
        lemma_renamed_row_take(rects, moved, to, st1.thinnest, column, wide, tall);
        lemma_renamed_put_row(rects, moved, to, st1, row, beside, y);
        lemma_renamed_span(rects, moved, to, row);
        lemma_renamed_put_column(
            rects,
            moved,
            to,
            st2,
            column,
            from + 1,
            x,
            y + tall,
            max(reach, beside + span(moved, row)),
        );
    }
}

/// A shelf segment under new names.
pub proof fn lemma_renamed_shelf(
    rects: Seq<Vector2<u32>>,
    moved: Seq<Vector2<u32>>,
    to: Seq<usize>,
    st: Progress,
    at: Cursor,
)
    requires
        rearranged(rects, moved, to),
        st.shortest.len() > 0,
    ensures
        shelf(rects, rename_progress(st, to), at).0 == rename_progress(shelf(moved, st, at).0, to),
        shelf(rects, rename_progress(st, to), at).1 == shelf(moved, st, at).1,
{
    let anchor = st.shortest.last();
    let wide = width_of(moved, anchor);
    let tall = height_of(moved, anchor);
    let st1 = put(st, at.x, at.y, anchor);
    let column = stack_take(moved, st1.shortest, tall);
    let (st2, reach) = put_column(moved, st1, column, 0, at.x + wide, at.y, 0);
    lemma_renamed_sizes(rects, moved, to);
    assert(rename_list(st.shortest, to).last() == renamed(to, anchor));
    lemma_renamed_put(st, to, at.x, at.y, anchor);
    lemma_renamed_stack_take(rects, moved, to, st1.shortest, tall);
    lemma_renamed_put_column(rects, moved, to, st1, column, 0, at.x + wide, at.y, 0);
    lemma_renamed_extent(rects, moved, to, st2.placed);
}

/// The run under new names.
pub proof fn lemma_renamed_run(
    rects: Seq<Vector2<u32>>,
    moved: Seq<Vector2<u32>>,
    to: Seq<usize>,
    st: Progress,
    at: Cursor,
)
    requires
        rearranged(rects, moved, to),
    ensures
        run(rects, rename_progress(st, to), at) == rename_placed(run(moved, st, at), to),
    decreases st.shortest.len(),
{
    if st.shortest.len() > 0 {
        lemma_shelf_len(moved, st, at);
        lemma_renamed_shelf(rects, moved, to, st, at);
        let (next, shifted) = shelf(moved, st, at);
        lemma_renamed_run(rects, moved, to, next, shifted);
    }
}

/// Rearranging: where `moved` holds the rectangles of `rects` in another
/// arrangement, under which rectangles of equal height keep their order and
/// so do rectangles of equal width, every rectangle has the same place in
/// both layouts, and both layouts have the same extent.
pub proof fn lemma_layout_of_rearranged(
    rects: Seq<Vector2<u32>>,
    moved: Seq<Vector2<u32>>,
    to: Seq<usize>,
)
    requires
        rects.len() <= usize::MAX,
        rearranged(rects, moved, to),
        keeps_ties(heights(moved), to),
        keeps_ties(widths(moved), to),
    ensures
        layout(rects) == rename_placed(layout(moved), to),
        extent_x(rects, layout(rects)) == extent_x(moved, layout(moved)),
        extent_y(rects, layout(rects)) == extent_y(moved, layout(moved)),
{
    assert forall|i: int| 0 <= i < moved.len() implies #[trigger] heights(moved)[i] == heights(
        rects,
    )[to[i] as int] by {
        assert(to[i] < to.len());
        assert(moved[i] == rects[to[i] as int]);
    }
    assert forall|i: int| 0 <= i < moved.len() implies #[trigger] widths(moved)[i] == widths(
        rects,
    )[to[i] as int] by {
        assert(to[i] < to.len());
        assert(moved[i] == rects[to[i] as int]);
    }
    lemma_renamed_order(heights(rects), heights(moved), to);
    lemma_renamed_order(widths(rects), widths(moved), to);
    assert(rename_placed(Seq::<Placement>::empty(), to) =~= Seq::<Placement>::empty());
    assert(start(rects) == rename_progress(start(moved), to));
    lemma_renamed_run(rects, moved, to, start(moved), origin());
    lemma_renamed_extent(rects, moved, to, layout(moved));
}

} // verus!
