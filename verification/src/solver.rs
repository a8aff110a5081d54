//! The solver: it arranges the rectangles once by height and once by width,
//! and then builds the layout shelf by shelf.

use vstd::prelude::*;
use vstd::math::max;
use crate::consistency::{
    complete, consistent, lemma_layout_complete, lemma_put_consistent, lemma_row_take,
    lemma_stack_take, lemma_start_consistent,
};
use crate::geometry::{Point2, Vector2};
use crate::growth::{
    lemma_extent_grows, lemma_extent_push, lemma_put_column_grows, lemma_put_row_grows,
    lemma_run_grows, lemma_shelf_grows,
};
use crate::layout::{
    extent_x, extent_y, fits, height_of, heights, in_range, layout, lemma_shelf_len, put,
    put_column, put_row, row_take, run, shelf, span, stack_take, start, width_of, widths, Cursor,
    Placement, Progress,
};
use crate::order::ascending_indices;
use crate::selection::{row, stack};
use crate::separation::{bounding, lemma_layout_bounded, lemma_layout_separate, separate};

verus! {

/// A finished layout: where each rectangle goes, and the size of the box
/// that holds them all.
#[derive(Debug)]
pub struct Pack {
    /// The top-left corner of each rectangle, with the rectangle's index in the input.
    pub output: Vec<(Point2<u32>, usize)>,
    /// The smallest box at the origin that holds every placed rectangle.
    pub dimensions: Vector2<u32>,
}

impl Pack {
    /// The placements as mathematical values.
    pub open spec fn placements(&self) -> Seq<Placement> {
        self.output@.map_values(
            |e: (Point2<u32>, usize)| Placement { x: e.0.x as int, y: e.0.y as int, index: e.1 },
        )
    }

    /// Where rectangle `index` was placed: the position of the first
    /// placement of that index, and nothing if there is none.
    pub fn position_of(&self, index: usize) -> (found: Option<Point2<u32>>)
        ensures
            match found {
                Some(at) => exists|k: int|
                    0 <= k < self.output@.len() && #[trigger] self.output@[k] == (at, index)
                        && forall|j: int| 0 <= j < k ==> (#[trigger] self.output@[j]).1 != index,
                None => forall|k: int|
                    0 <= k < self.output@.len() ==> (#[trigger] self.output@[k]).1 != index,
            },
    {
        let mut i: usize = 0;
        while i < self.output.len()
            invariant
                i <= self.output@.len(),
                forall|j: int| 0 <= j < i ==> (#[trigger] self.output@[j]).1 != index,
            decreases self.output@.len() - i,
        {
            if self.output[i].1 == index {
                let at: Point2<u32> = self.output[i].0;
                assert(self.output@[i as int] == (at, index));
                return Some(at);
            }
            i += 1;
        }
        None
    }

    /// Whether this pack is the solution for `rects`: its placements are the
    /// layout of `rects`, and its dimensions are the extent of that layout.
    pub open spec fn solves(&self, rects: Seq<Vector2<u32>>) -> bool {
        &&& self.placements() == layout(rects)
        &&& self.dimensions.x == extent_x(rects, layout(rects))
        &&& self.dimensions.y == extent_y(rects, layout(rects))
    }
}

/// Reproducibility: a list of rectangles has one solution. Two packs that
/// solve the same list hold the same placements in the same order, and have
/// the same dimensions.
pub proof fn lemma_solution_unique(rects: Seq<Vector2<u32>>, a: Pack, b: Pack)
    requires
        a.solves(rects),
        b.solves(rects),
    ensures
        a.output@ == b.output@,
        a.dimensions == b.dimensions,
{
    assert(a.output@.len() == b.output@.len()) by {
        assert(a.placements().len() == b.placements().len());
    }
    assert forall|k: int| 0 <= k < a.output@.len() implies a.output@[k] == b.output@[k] by {
        assert(a.placements()[k] == b.placements()[k]);
    }
    assert(a.output@ =~= b.output@);
}

/// Lays out a list of rectangles. A solver is made for one list and solves it once.
pub struct PackSolver<'a, T> {
    rects: &'a [Vector2<T>],
    shortest: Vec<usize>,
    thinnest: Vec<usize>,
    pack: Pack,
}

/// The place of `value` in `list`.
fn position_of(list: &Vec<usize>, value: usize) -> (at: usize)
    requires
        list@.contains(value),
    ensures
        at < list@.len(),
        list@.index_of_first(value) == Some(at as int),
{
    let n: usize = list.len();
    let mut i: usize = 0;
    while i < n && list[i] != value
        invariant
            n == list@.len(),
            i <= n,
            forall|j: int| 0 <= j < i ==> list@[j] != value,
        decreases n - i,
    {
        i += 1;
    }
    proof {
        list@.index_of_first_ensures(value);
    }
    i
}

impl<'a> PackSolver<'a, u32> {
    /// The sizes of the rectangles that the solver was made for.
    pub closed spec fn sizes(&self) -> Seq<Vector2<u32>> {
        self.rects@
    }

    /// How far the solver has come.
    pub closed spec fn progress(&self) -> Progress {
        Progress {
            shortest: self.shortest@,
            thinnest: self.thinnest@,
            placed: self.pack.placements(),
        }
    }

    /// Whether the recorded dimensions are the extent of the placements made.
    pub closed spec fn measured(&self) -> bool {
        &&& self.pack.dimensions.x == extent_x(self.rects@, self.pack.placements())
        &&& self.pack.dimensions.y == extent_y(self.rects@, self.pack.placements())
    }

    /// Whether nothing has been placed yet and both orders are complete.
    pub open spec fn fresh(&self) -> bool {
        &&& self.sizes().len() <= usize::MAX
        &&& self.progress() == start(self.sizes())
        &&& self.measured()
    }

    /// Makes a solver for `rects`: arranges the rectangles by ascending
    /// height and by ascending width.
    pub fn new(rects: &'a [Vector2<u32>]) -> (solver: Self)
        ensures
            solver.sizes() == rects@,
            solver.fresh(),
    {
        let n: usize = rects.len();
        let mut tall: Vec<u32> = Vec::new();
        let mut wide: Vec<u32> = Vec::new();
        let mut i: usize = 0;
        while i < n
            invariant
                n == rects@.len(),
                i <= n,
                tall@ == heights(rects@).subrange(0, i as int),
                wide@ == widths(rects@).subrange(0, i as int),
            decreases n - i,
        {
            tall.push(rects[i].y);
            wide.push(rects[i].x);
            assert(tall@ =~= heights(rects@).subrange(0, i + 1));
            assert(wide@ =~= widths(rects@).subrange(0, i + 1));
            i += 1;
        }
        assert(tall@ =~= heights(rects@));
        assert(wide@ =~= widths(rects@));
        let shortest = ascending_indices(&tall);
        let thinnest = ascending_indices(&wide);
        let solver = PackSolver {
            rects,
            shortest,
            thinnest,
            pack: Pack { output: Vec::new(), dimensions: Vector2 { x: 0, y: 0 } },
        };
        assert(solver.pack.placements() =~= Seq::<Placement>::empty());
        solver
    }

    /// Records that rectangle `index` goes to `position`, and strikes it from both orders.
    fn move_to_output(&mut self, position: Point2<u32>, index: usize)
        requires
            old(self).measured(),
            old(self).shortest@.contains(index),
            old(self).thinnest@.contains(index),
            index < old(self).rects@.len(),
            position.x + width_of(old(self).rects@, index) <= u32::MAX,
            position.y + height_of(old(self).rects@, index) <= u32::MAX,
        ensures
            final(self).sizes() == old(self).sizes(),
            final(self).progress() == put(
                old(self).progress(),
                position.x as int,
                position.y as int,
                index,
            ),
            final(self).measured(),
            final(self).pack.dimensions.x >= position.x + width_of(old(self).rects@, index),
            final(self).pack.dimensions.y >= position.y + height_of(old(self).rects@, index),
            final(self).pack.dimensions.x >= old(self).pack.dimensions.x,
            final(self).pack.dimensions.y >= old(self).pack.dimensions.y,
    {
        let at: usize = position_of(&self.shortest, index);
        self.shortest.remove(at);
        let at: usize = position_of(&self.thinnest, index);
        self.thinnest.remove(at);
        self.pack.output.push((position, index));
        let right: u32 = position.x + self.rects[index].x;
        let bottom: u32 = position.y + self.rects[index].y;
        self.pack.dimensions.x = self.pack.dimensions.x.max(right);
        self.pack.dimensions.y = self.pack.dimensions.y.max(bottom);
        proof {
            let p = Placement { x: position.x as int, y: position.y as int, index };
            assert(self.pack.placements() =~= old(self).pack.placements().push(p));
            lemma_extent_push(self.rects@, old(self).pack.placements(), p);
        }
    }

    /// Whether every rectangle has been placed.
    fn fully_solved(&self) -> (done: bool)
        ensures
            done == (self.shortest@.len() == 0 && self.thinnest@.len() == 0),
    {
        self.shortest.is_empty() && self.thinnest.is_empty()
    }

    /// The tallest rectangle that is left.
    fn find_tallest(&self) -> (tallest: usize)
        requires
            self.shortest@.len() > 0,
        ensures
            tallest == self.shortest@.last(),
    {
        self.shortest[self.shortest.len() - 1]
    }

    /// Whether rectangle `index`, placed at `position`, stays within 32-bit coordinates.
    fn in_reach(&self, position: Point2<u32>, index: usize) -> (ok: bool)
        requires
            index < self.rects@.len(),
        ensures
            ok == (position.x + width_of(self.rects@, index) <= u32::MAX && position.y + height_of(
                self.rects@,
                index,
            ) <= u32::MAX),
    {
        let size: Vector2<u32> = self.rects[index];
        size.x <= u32::MAX - position.x && size.y <= u32::MAX - position.y
    }

    /// Places the rectangles of `row` side by side, the first at `(x, y)`,
    /// and returns the right end of the row; nothing, where the row reaches
    /// beyond 32-bit coordinates.
    fn place_row(&mut self, row: &Vec<usize>, x: u32, y: u32) -> (end: Option<u32>)
        requires
            old(self).measured(),
            consistent(old(self).sizes(), old(self).progress()),
            row@.no_duplicates(),
            forall|k: int| 0 <= k < row@.len() ==> old(self).thinnest@.contains(#[trigger] row@[k]),
        ensures
            final(self).sizes() == old(self).sizes(),
            end.is_some() == in_range(
                old(self).sizes(),
                put_row(old(self).sizes(), old(self).progress(), row@, x as int, y as int).placed,
            ),
            end.is_some() ==> {
                &&& final(self).progress() == put_row(
                    old(self).sizes(),
                    old(self).progress(),
                    row@,
                    x as int,
                    y as int,
                )
                &&& end.unwrap() == x + span(old(self).sizes(), row@)
                &&& final(self).measured()
                &&& consistent(final(self).sizes(), final(self).progress())
                &&& forall|i: usize|
                    #[trigger] final(self).shortest@.contains(i) <==> (
                    old(self).shortest@.contains(i) && !row@.contains(i))
                &&& final(self).pack.dimensions.x >= old(self).pack.dimensions.x
                &&& final(self).pack.dimensions.y >= old(self).pack.dimensions.y
            },
    {
        let ghost rects = self.rects@;
        let ghost first = self.progress();
        let ghost goal = put_row(rects, first, row@, x as int, y as int);
        let mut current_x: u32 = x;
        let mut m: usize = 0;
        assert(row@.skip(0) =~= row@);
        while m < row.len()
            invariant
                m <= row@.len(),
                self.rects@ == rects,
                self.measured(),
                consistent(rects, self.progress()),
                row@.no_duplicates(),
                rects == old(self).sizes(),
                goal == put_row(rects, old(self).progress(), row@, x as int, y as int),
                goal == put_row(rects, self.progress(), row@.skip(m as int), current_x as int, y as int),
                current_x + span(rects, row@.skip(m as int)) == x + span(rects, row@),
                forall|i: usize|
                    #[trigger] self.shortest@.contains(i) <==> (first.shortest.contains(i)
                        && !row@.subrange(0, m as int).contains(i)),
                forall|k: int| 0 <= k < row@.len() ==> first.thinnest.contains(#[trigger] row@[k]),
                forall|i: usize|
                    #[trigger] first.shortest.contains(i) <==> #[trigger] first.thinnest.contains(i),
                self.pack.dimensions.x >= old(self).pack.dimensions.x,
                self.pack.dimensions.y >= old(self).pack.dimensions.y,
            decreases row@.len() - m,
        {
            let entry: usize = row[m];
            let ghost before = self.progress();
            let ghost rest = row@.skip(m as int);
            proof {
                assert(rest[0] == entry);
                assert(rest.drop_first() =~= row@.skip(m + 1));
                assert(first.thinnest.contains(row@[m as int]));
                assert(!row@.subrange(0, m as int).contains(entry)) by {
                    if row@.subrange(0, m as int).contains(entry) {
                        let j = choose|j: int|
                            0 <= j < m && row@.subrange(0, m as int)[j] == entry;
                        assert(row@[j] == row@[m as int]);
                    }
                }
                assert(self.shortest@.contains(entry));
                let after = put(before, current_x as int, y as int, entry);
                lemma_put_consistent(rects, before, current_x as int, y as int, entry);
                lemma_put_row_grows(
                    rects,
                    after,
                    row@.skip(m + 1),
                    current_x + width_of(rects, entry),
                    y as int,
                );
                lemma_extent_grows(rects, after.placed, goal.placed);
                lemma_extent_push(
                    rects,
                    before.placed,
                    Placement { x: current_x as int, y: y as int, index: entry },
                );
            }
            if !self.in_reach(Point2 { x: current_x, y }, entry) {
                return None;
            }
            self.move_to_output(Point2 { x: current_x, y }, entry);
            current_x += self.rects[entry].x;
            proof {
                assert forall|i: usize| #[trigger]
                    self.shortest@.contains(i) <==> (first.shortest.contains(i) && !row@.subrange(
                        0,
                        m + 1,
                    ).contains(i)) by {
                    let shorter = row@.subrange(0, m as int);
                    let longer = row@.subrange(0, m + 1);
                    assert(longer =~= shorter.push(entry));
                    if longer.contains(i) {
                        let j = choose|j: int| 0 <= j < longer.len() && longer[j] == i;
                        if j < m {
                            assert(shorter[j] == i);
                        }
                    }
                    if shorter.contains(i) {
                        let j = choose|j: int| 0 <= j < shorter.len() && shorter[j] == i;
                        assert(longer[j] == i);
                    }
                    assert(longer[m as int] == entry);
                }
            }
            m += 1;
        }
        proof {
            assert(row@.skip(row@.len() as int) =~= Seq::<usize>::empty());
            assert(row@.subrange(0, row@.len() as int) =~= row@);
        }
        Some(current_x)
    }

    /// Places the members of `column` one below the other, the first at
    /// `(x, y)`, each with its row to the right of it, and returns the right
    /// end of the longest row; nothing, where the column or a row reaches
    /// beyond 32-bit coordinates.
    fn place_column(&mut self, column: &Vec<usize>, x: u32, y: u32) -> (reach: Option<u32>)
        requires
            old(self).measured(),
            consistent(old(self).sizes(), old(self).progress()),
            column@.no_duplicates(),
            forall|k: int|
                0 <= k < column@.len() ==> old(self).shortest@.contains(#[trigger] column@[k]),
        ensures
            final(self).sizes() == old(self).sizes(),
            reach.is_some() == in_range(
                old(self).sizes(),
                put_column(
                    old(self).sizes(),
                    old(self).progress(),
                    column@,
                    0,
                    x as int,
                    y as int,
                    0,
                ).0.placed,
            ),
            reach.is_some() ==> {
                &&& (final(self).progress(), reach.unwrap() as int) == put_column(
                    old(self).sizes(),
                    old(self).progress(),
                    column@,
                    0,
                    x as int,
                    y as int,
                    0,
                )
                &&& final(self).measured()
                &&& consistent(final(self).sizes(), final(self).progress())
                &&& final(self).pack.dimensions.x >= old(self).pack.dimensions.x
                &&& final(self).pack.dimensions.y >= old(self).pack.dimensions.y
            },
    {
        let ghost rects = self.rects@;
        let ghost first = self.progress();
        let ghost goal = put_column(rects, first, column@, 0, x as int, y as int, 0);
        let mut current_y: u32 = y;
        let mut width: u32 = 0;
        let mut k: usize = 0;
        while k < column.len()
            invariant
                k <= column@.len(),
                self.rects@ == rects,
                self.measured(),
                consistent(rects, self.progress()),
                column@.no_duplicates(),
                rects == old(self).sizes(),
                goal == put_column(rects, old(self).progress(), column@, 0, x as int, y as int, 0),
                goal == put_column(
                    rects,
                    self.progress(),
                    column@,
                    k as int,
                    x as int,
                    current_y as int,
                    width as int,
                ),
                forall|j: int|
                    k <= j < column@.len() ==> self.shortest@.contains(#[trigger] column@[j]),
                self.pack.dimensions.x >= old(self).pack.dimensions.x,
                self.pack.dimensions.y >= old(self).pack.dimensions.y,
            decreases column@.len() - k,
        {
            let member: usize = column[k];
            let ghost before = self.progress();
            let ghost after = put(before, x as int, current_y as int, member);
            let ghost taken = row_take(
                rects,
                after.thinnest,
                column@,
                width_of(rects, member),
                height_of(rects, member),
            );
            let ghost lined = put_row(
                rects,
                after,
                taken,
                x + width_of(rects, member),
                current_y as int,
            );
            proof {
                assert(self.shortest@.contains(column@[k as int]));
                lemma_put_consistent(rects, before, x as int, current_y as int, member);
                lemma_put_row_grows(rects, after, taken, x + width_of(rects, member), current_y as int);
                lemma_put_column_grows(
                    rects,
                    lined,
                    column@,
                    k + 1,
                    x as int,
                    current_y + height_of(rects, member),
                    max(width as int, x + width_of(rects, member) + span(rects, taken)),
                );
                lemma_extent_grows(rects, lined.placed, goal.0.placed);
                lemma_extent_grows(rects, after.placed, lined.placed);
                lemma_extent_push(
                    rects,
                    before.placed,
                    Placement { x: x as int, y: current_y as int, index: member },
                );
            }
            if !self.in_reach(Point2 { x, y: current_y }, member) {
                return None;
            }
            self.move_to_output(Point2 { x, y: current_y }, member);
            let size: Vector2<u32> = self.rects[member];
            assert forall|j: int| 0 <= j < self.thinnest@.len() implies self.thinnest@[j]
                < self.rects@.len() by {
                assert(self.thinnest@.contains(self.thinnest@[j]));
                assert(self.shortest@.contains(self.thinnest@[j]));
            }
            let rowed: Vec<usize> = row(self.rects, &self.thinnest, column, size.x, size.y);
            proof {
                lemma_row_take(
                    rects,
                    after.thinnest,
                    column@,
                    width_of(rects, member),
                    height_of(rects, member),
                );
            }
            let current_x: u32 = match self.place_row(&rowed, x + size.x, current_y) {
                Some(end) => end,
                None => {
                    return None;
                },
            };
            width = width.max(current_x);
            current_y += size.y;
            proof {
                assert forall|j: int| k + 1 <= j < column@.len() implies self.shortest@.contains(
                    #[trigger] column@[j],
                ) by {
                    assert(before.shortest.contains(column@[j]));
                    assert(column@[j] != column@[k as int]);
                    assert(after.shortest.contains(column@[j]));
                    assert(column@.contains(column@[j]));
                    if taken.contains(column@[j]) {
                        let i = choose|i: int| 0 <= i < taken.len() && taken[i] == column@[j];
                        assert(!column@.contains(taken[i]));
                    }
                }
            }
            k += 1;
        }
        Some(width)
    }

    /// Lays out all rectangles and returns the layout; nothing, where the
    /// layout does not fit into 32-bit coordinates.
    pub fn try_solve(self) -> (solved: Option<Pack>)
        requires
            self.fresh(),
        ensures
            solved.is_some() == fits(self.sizes()),
            solved.is_some() ==> {
                &&& solved.unwrap().solves(self.sizes())
                &&& complete(self.sizes(), solved.unwrap().placements())
                &&& separate(self.sizes(), solved.unwrap().placements())
                &&& bounding(
                    self.sizes(),
                    solved.unwrap().placements(),
                    solved.unwrap().dimensions.x as int,
                    solved.unwrap().dimensions.y as int,
                )
            },
    {
        let mut solver = self;
        let ghost rects = solver.rects@;
        let ghost goal = layout(rects);
        let mut position: Point2<u32> = Point2 { x: 0, y: 0 };
        let mut tallest_in_row: u32 = 0;
        proof {
            lemma_start_consistent(rects);
        }
        while !solver.fully_solved()
            invariant
                solver.rects@ == rects,
                solver.measured(),
                consistent(rects, solver.progress()),
                rects == self.sizes(),
                goal == layout(rects),
                goal == run(
                    rects,
                    solver.progress(),
                    Cursor {
                        x: position.x as int,
                        y: position.y as int,
                        tallest: tallest_in_row as int,
                    },
                ),
                position.y + tallest_in_row <= solver.pack.dimensions.y,
            decreases solver.shortest@.len(),
        {
            let ghost before = solver.progress();
            let ghost at = Cursor {
                x: position.x as int,
                y: position.y as int,
                tallest: tallest_in_row as int,
            };
            assert(before.shortest.len() > 0) by {
                if before.shortest.len() == 0 {
                    assert(before.thinnest.len() > 0);
                    assert(before.thinnest.contains(before.thinnest[0]));
                    assert(before.shortest.contains(before.thinnest[0]));
                }
            }
            let tallest: usize = solver.find_tallest();
            let ghost after = put(before, at.x, at.y, tallest);
            let ghost taken = stack_take(rects, after.shortest, height_of(rects, tallest));
            proof {
                assert(before.shortest.contains(before.shortest.last()));
                lemma_shelf_len(rects, before, at);
                lemma_put_consistent(rects, before, at.x, at.y, tallest);
                lemma_shelf_grows(rects, before, at);
                let (next, moved) = shelf(rects, before, at);
                lemma_run_grows(rects, next, moved);
                lemma_extent_grows(rects, next.placed, goal);
                lemma_extent_grows(rects, after.placed, next.placed);
                lemma_extent_push(
                    rects,
                    before.placed,
                    Placement { x: at.x, y: at.y, index: tallest },
                );
                lemma_stack_take(rects, after.shortest, height_of(rects, tallest));
            }
            if !solver.in_reach(position, tallest) {
                return None;
            }
            solver.move_to_output(position, tallest);
            let size: Vector2<u32> = solver.rects[tallest];
            tallest_in_row = tallest_in_row.max(size.y);
            position.x += size.x;
            assert forall|j: int| 0 <= j < solver.shortest@.len() implies solver.shortest@[j]
                < solver.rects@.len() by {
                assert(solver.shortest@.contains(solver.shortest@[j]));
            }
            let extended: Vec<usize> = stack(solver.rects, &solver.shortest, size.y);
            proof {
                assert(extended@.no_duplicates());
                assert forall|k: int| 0 <= k < extended@.len() implies after.shortest.contains(
                    #[trigger] extended@[k],
                ) by {
                    assert(after.shortest[k] == extended@[k]);
                }
            }
            let width: u32 = match solver.place_column(&extended, position.x, position.y) {
                Some(reach) => reach,
                None => {
                    return None;
                },
            };
            if solver.pack.dimensions.y >= solver.pack.dimensions.x {
                position.x = width;
            } else {
                position.y = position.y + tallest_in_row;
                position.x = 0;
                tallest_in_row = 0;
            }
        }
        proof {
            lemma_layout_complete(rects);
            lemma_layout_separate(rects);
            lemma_layout_bounded(rects);
        }
        Some(solver.pack)
    }

    /// Lays out all rectangles and returns the layout.
    pub fn solve(self) -> (pack: Pack)
        requires
            self.fresh(),
            fits(self.sizes()),
        ensures
            pack.solves(self.sizes()),
            complete(self.sizes(), pack.placements()),
            separate(self.sizes(), pack.placements()),
            bounding(
                self.sizes(),
                pack.placements(),
                pack.dimensions.x as int,
                pack.dimensions.y as int,
            ),
    {
        self.try_solve().unwrap()
    }
}

} // verus!
