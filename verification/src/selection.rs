//! Choosing the rectangles of a column and of a row.

use vstd::prelude::*;
use crate::geometry::Vector2;
use crate::layout::{row_take, stack_take};

verus! {

/// Whether `value` is in `list`.
fn holds(list: &Vec<usize>, value: usize) -> (found: bool)
    ensures
        found == list@.contains(value),
{
    let mut i: usize = 0;
    while i < list.len()
        invariant
            i <= list@.len(),
            forall|j: int| 0 <= j < i ==> list@[j] != value,
        decreases list@.len() - i,
    {
        if list[i] == value {
            return true;
        }
        i += 1;
    }
    false
}

/// The rectangles at the front of `order` whose heights together do not
/// exceed `budget`: the column beside an anchor of that height.
pub fn stack(rects: &[Vector2<u32>], order: &Vec<usize>, budget: u32) -> (column: Vec<usize>)
    requires
        forall|k: int| 0 <= k < order@.len() ==> order@[k] < rects@.len(),
    ensures
        column@ == stack_take(rects@, order@, budget as int),
{
    let mut column: Vec<usize> = Vec::new();
    let mut left: u32 = budget;
    let mut i: usize = 0;
    assert(order@.skip(0) =~= order@);
    assert(column@ + stack_take(rects@, order@, budget as int) =~= stack_take(
        rects@,
        order@,
        budget as int,
    ));
    while i < order.len()
        invariant
            i <= order@.len(),
            forall|k: int| 0 <= k < order@.len() ==> order@[k] < rects@.len(),
            stack_take(rects@, order@, budget as int) == column@ + stack_take(
                rects@,
                order@.skip(i as int),
                left as int,
            ),
        decreases order@.len() - i,
    {
        let entry: usize = order[i];
        let height: u32 = rects[entry].y;
        let ghost rest = order@.skip(i as int);
        assert(rest[0] == entry);
        assert(rest.drop_first() =~= order@.skip(i + 1));
        if height > left {
            assert(column@ + Seq::<usize>::empty() =~= column@);
            return column;
        }
        proof {
            let tail = stack_take(rects@, order@.skip(i + 1), left as int - height as int);
            assert(column@ + (seq![entry] + tail) =~= column@.push(entry) + tail);
        }
        column.push(entry);
        left -= height;
        i += 1;
    }
    assert(column@ + Seq::<usize>::empty() =~= column@);
    column
}

/// The rectangles of a row: `order` is read from its front, entries of
/// `reserved` are passed over, and the reading stops at the first rectangle
/// that makes the row wider than `budget`, or that is not lower than
/// `ceiling`.
pub fn row(
    rects: &[Vector2<u32>],
    order: &Vec<usize>,
    reserved: &Vec<usize>,
    budget: u32,
    ceiling: u32,
) -> (row: Vec<usize>)
    requires
        forall|k: int| 0 <= k < order@.len() ==> order@[k] < rects@.len(),
    ensures
        row@ == row_take(rects@, order@, reserved@, budget as int, ceiling as int),
{
    let mut row: Vec<usize> = Vec::new();
    let mut left: u32 = budget;
    let mut i: usize = 0;
    assert(order@.skip(0) =~= order@);
    assert(row@ + row_take(rects@, order@, reserved@, budget as int, ceiling as int) =~= row_take(
        rects@,
        order@,
        reserved@,
        budget as int,
        ceiling as int,
    ));
    while i < order.len()
        invariant
            i <= order@.len(),
            forall|k: int| 0 <= k < order@.len() ==> order@[k] < rects@.len(),
            row_take(rects@, order@, reserved@, budget as int, ceiling as int) == row@ + row_take(
                rects@,
                order@.skip(i as int),
                reserved@,
                left as int,
                ceiling as int,
            ),
        decreases order@.len() - i,
    {
        let entry: usize = order[i];
        let ghost rest = order@.skip(i as int);
        assert(rest[0] == entry);
        assert(rest.drop_first() =~= order@.skip(i + 1));
        if !holds(reserved, entry) {
            let rect: Vector2<u32> = rects[entry];
            if rect.x > left || rect.y >= ceiling {
                assert(row@ + Seq::<usize>::empty() =~= row@);
                return row;
            }
            proof {
                let tail = row_take(
                    rects@,
                    order@.skip(i + 1),
                    reserved@,
                    left as int - rect.x as int,
                    ceiling as int,
                );
                assert(row@ + (seq![entry] + tail) =~= row@.push(entry) + tail);
            }
            row.push(entry);
            left -= rect.x;
        }
        i += 1;
    }
    assert(row@ + Seq::<usize>::empty() =~= row@);
    row
}

} // verus!
