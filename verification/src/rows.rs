//! The rows of a shelf segment stay empty.
//!
//! A row beside a member of the column takes rectangles that are lower than
//! the member. The column is the front of the order by height, so every
//! rectangle that is lower than a member stands in front of it, in the column
//! itself, and the column is kept out of the rows. Nothing is left for a row.

use vstd::prelude::*;
use vstd::math::max;
use crate::consistency::{
    consistent, lemma_keys, lemma_put_consistent, lemma_stack_take,
};
use crate::geometry::Vector2;
use crate::layout::{
    height_of, heights, put, put_column, put_row, row_take, shelf, span, stack_take, width_of,
    Cursor, Progress,
};
use crate::order::comes_before;

verus! {

/// Whether the members of `column` from number `from` on stand at the front
/// of `order`, in the same sequence.
pub open spec fn leads(column: Seq<usize>, from: int, order: Seq<usize>) -> bool {
    &&& column.len() - from <= order.len()
    &&& forall|j: int| from <= j < column.len() ==> order[j - from] == #[trigger] column[j]
}

/// Nothing goes into a row from a list whose every entry is reserved or at
/// least as high as the ceiling.
pub proof fn lemma_row_take_nothing(
    rects: Seq<Vector2<u32>>,
    order: Seq<usize>,
    reserved: Seq<usize>,
    budget: int,
    ceiling: int,
)
    requires
        forall|k: int|
            0 <= k < order.len() ==> reserved.contains(#[trigger] order[k]) || height_of(
                rects,
                order[k],
            ) >= ceiling,
    ensures
        row_take(rects, order, reserved, budget, ceiling) == Seq::<usize>::empty(),
    decreases order.len(),
{
    if order.len() > 0 {
        assert(reserved.contains(order[0]) || height_of(rects, order[0]) >= ceiling);
        if reserved.contains(order[0]) {
            assert forall|k: int| 0 <= k < order.drop_first().len() implies reserved.contains(
                #[trigger] order.drop_first()[k],
            ) || height_of(rects, order.drop_first()[k]) >= ceiling by {
                assert(order.drop_first()[k] == order[k + 1]);
            }
            lemma_row_take_nothing(rects, order.drop_first(), reserved, budget, ceiling);
        }
    }
}

/// A column that leads the order by height is placed without rows: as many
/// rectangles are placed as the column has members.
pub proof fn lemma_column_without_rows(
    rects: Seq<Vector2<u32>>,
    st: Progress,
    column: Seq<usize>,
    from: int,
    x: int,
    y: int,
    reach: int,
)
    requires
        consistent(rects, st),
        0 <= from <= column.len(),
        leads(column, from, st.shortest),
    ensures
        put_column(rects, st, column, from, x, y, reach).0.placed.len() == st.placed.len()
            + column.len() - from,
    decreases column.len() - from,
{
    if from < column.len() {
        let member = column[from];
        let beside = x + width_of(rects, member);
        let below = y + height_of(rects, member);
        let st1 = put(st, x, y, member);
        let row = row_take(
            rects,
            st1.thinnest,
            column,
            width_of(rects, member),
            height_of(rects, member),
        );
        assert(st.shortest[0] == column[from]);
        assert(st.shortest.contains(member));
        lemma_put_consistent(rects, st, x, y, member);
        st.shortest.index_of_first_ensures(member);
        assert(st.shortest.remove_value(member) =~= st.shortest.drop_first());
        lemma_keys(rects);
        assert forall|k: int| 0 <= k < st1.thinnest.len() implies column.contains(
            #[trigger] st1.thinnest[k],
        ) || height_of(rects, st1.thinnest[k]) >= height_of(rects, member) by {
            let t = st1.thinnest[k];
            assert(st1.thinnest.contains(t));
            assert(st1.shortest.contains(t));
            let i = choose|i: int| 0 <= i < st1.shortest.len() && st1.shortest[i] == t;
            assert(st.shortest[i + 1] == t);
            assert(comes_before(heights(rects), st.shortest[0], st.shortest[i + 1]));
        }
        lemma_row_take_nothing(
            rects,
            st1.thinnest,
            column,
            width_of(rects, member),
            height_of(rects, member),
        );
        assert(row.len() == 0);
        assert(put_row(rects, st1, row, beside, y) == st1);
        let reach2 = max(reach, beside + span(rects, row));
        assert forall|j: int| from + 1 <= j < column.len() implies st1.shortest[j - from - 1]
            == #[trigger] column[j] by {
            assert(st.shortest[j - from] == column[j]);
        }
        lemma_column_without_rows(rects, st1, column, from + 1, x, below, reach2);
    }
}

/// Rows stay empty: a shelf segment places its anchor and the members of its
/// column, and nothing else.
pub proof fn lemma_shelf_without_rows(rects: Seq<Vector2<u32>>, st: Progress, at: Cursor)
    requires
        consistent(rects, st),
        st.shortest.len() > 0,
    ensures
        shelf(rects, st, at).0.placed.len() == st.placed.len() + 1 + stack_take(
            rects,
            put(st, at.x, at.y, st.shortest.last()).shortest,
            height_of(rects, st.shortest.last()),
        ).len(),
{
    let anchor = st.shortest.last();
    let st1 = put(st, at.x, at.y, anchor);
    let column = stack_take(rects, st1.shortest, height_of(rects, anchor));
    assert(st.shortest.contains(st.shortest[st.shortest.len() - 1]));
    lemma_put_consistent(rects, st, at.x, at.y, anchor);
    lemma_stack_take(rects, st1.shortest, height_of(rects, anchor));
    lemma_column_without_rows(
        rects,
        st1,
        column,
        0,
        at.x + width_of(rects, anchor),
        at.y,
        0,
    );
}

} // verus!
